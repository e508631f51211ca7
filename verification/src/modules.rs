//! Package-local C++20 module planning.
//!
//! The planner handles only standard module declarations and imports found
//! in the current package. Header units, `import std`, and modules supplied
//! by dependencies remain the compiler's responsibility.
use vstd::prelude::*;

use crate::error::{CbldError, Result};
use crate::language::{is_module_path, CompileUnit, Language};
use crate::path::{join, join_spec, parent, parent_spec};
use crate::text::{
    ascii_alnum, chars_eq, chars_of, is_ascii_alnum, join_with, push_str, string_from, sub_chars, trim_end,
    trim_end_char,
};

verus! {

// ---------------------------------------------------------------------------
// Lexer: the declaration vocabulary only; comments and strings are dropped.
// ---------------------------------------------------------------------------

/// Characters that make up a word token.
pub open spec fn is_word_char(c: char) -> bool {
    is_ascii_alnum(c) || c == '_' || c == ':'
}

/// Number of bytes of `c` in UTF-8 (`char::len_utf8`).
pub open spec fn utf8_width(c: char) -> int {
    if (c as u32) < 0x80 {
        1
    } else if (c as u32) < 0x800 {
        2
    } else if (c as u32) < 0x10000 {
        3
    } else {
        4
    }
}

/// Position of the first `'\n'` at or after `i`, or `i` when none is left.
pub open spec fn line_end(s: Seq<char>, i: int) -> int
    decreases s.len() - i,
{
    if i >= s.len() || s[i] == '\n' {
        i
    } else {
        line_end(s, i + 1)
    }
}

/// Position of the `*` of the first `*/` at or after `k`, or the last
/// position when the comment never closes.
pub open spec fn block_close(s: Seq<char>, k: int) -> int
    decreases s.len() - k,
{
    if k + 1 >= s.len() || (s[k] == '*' && s[k + 1] == '/') {
        k
    } else {
        block_close(s, k + 1)
    }
}

/// Position just after the string literal body starting at `k`, closed by
/// `q`; a backslash escapes the next character.
pub open spec fn quote_end(s: Seq<char>, k: int, q: char) -> int
    decreases s.len() - k,
{
    if k >= s.len() {
        k
    } else if s[k] == '\\' {
        quote_end(s, if k + 2 <= s.len() { k + 2 } else { s.len() as int }, q)
    } else if s[k] == q {
        k + 1
    } else {
        quote_end(s, k + 1, q)
    }
}

/// End of the run of word characters starting at `k`.
pub open spec fn word_end(s: Seq<char>, k: int) -> int
    decreases s.len() - k,
{
    if k < s.len() && is_word_char(s[k]) {
        word_end(s, k + 1)
    } else {
        k
    }
}

/// End of an angle-bracket token whose body starts at `k` (just past `>`).
pub open spec fn angle_end(s: Seq<char>, k: int) -> int
    decreases s.len() - k,
{
    if k >= s.len() {
        k
    } else if s[k] == '>' {
        k + 1
    } else {
        angle_end(s, k + 1)
    }
}

/// The `(` opening a raw string: the first one at or after `p` that starts
/// within 17 UTF-8 bytes of the delimiter start (`used` bytes are behind).
pub open spec fn raw_open(s: Seq<char>, p: int, used: int) -> Option<int>
    decreases s.len() - p,
{
    if p < 0 || p >= s.len() || used >= 17 {
        None
    } else if s[p] == '(' {
        Some(p)
    } else {
        raw_open(s, p + 1, used + utf8_width(s[p]))
    }
}

/// Whether a raw string with delimiter `delim` closes at `idx` (`)delim"`).
pub open spec fn raw_closes_at(s: Seq<char>, idx: int, delim: Seq<char>) -> bool {
    &&& 0 <= idx
    &&& idx + 1 + delim.len() < s.len()
    &&& s[idx] == ')'
    &&& s.subrange(idx + 1, idx + 1 + delim.len()) == delim
    &&& s[idx + 1 + delim.len()] == '"'
}

/// Position after the first closing `)delim"` at or after `idx`.
pub open spec fn raw_close(s: Seq<char>, idx: int, delim: Seq<char>) -> Option<int>
    decreases s.len() - idx,
{
    if idx < 0 || idx >= s.len() {
        None
    } else if raw_closes_at(s, idx, delim) {
        Some(idx + delim.len() + 2)
    } else {
        raw_close(s, idx + 1, delim)
    }
}

/// Position after a raw string literal `R"delim( ... )delim"` starting at
/// `start`, if it is well formed.
pub open spec fn raw_string_close(s: Seq<char>, start: int) -> Option<int> {
    match raw_open(s, start + 2, 0) {
        Some(open) => raw_close(s, open + 1, s.subrange(start + 2, open)),
        None => None,
    }
}

pub proof fn lemma_line_end(s: Seq<char>, i: int)
    requires
        i <= s.len(),
    ensures
        i <= line_end(s, i) <= s.len(),
    decreases s.len() - i,
{
    if i < s.len() && s[i] != '\n' {
        lemma_line_end(s, i + 1);
    }
}

pub proof fn lemma_block_close(s: Seq<char>, k: int)
    ensures
        k <= block_close(s, k),
        k + 1 < s.len() ==> block_close(s, k) + 1 <= s.len(),
    decreases s.len() - k,
{
    if !(k + 1 >= s.len() || (s[k] == '*' && s[k + 1] == '/')) {
        lemma_block_close(s, k + 1);
    }
}

pub proof fn lemma_quote_end(s: Seq<char>, k: int, q: char)
    requires
        k <= s.len(),
    ensures
        k <= quote_end(s, k, q) <= s.len(),
    decreases s.len() - k,
{
    if k < s.len() {
        if s[k] == '\\' {
            lemma_quote_end(s, if k + 2 <= s.len() { k + 2 } else { s.len() as int }, q);
        } else if s[k] != q {
            lemma_quote_end(s, k + 1, q);
        }
    }
}

pub proof fn lemma_word_end(s: Seq<char>, k: int)
    requires
        k <= s.len(),
    ensures
        k <= word_end(s, k) <= s.len(),
    decreases s.len() - k,
{
    if k < s.len() && is_word_char(s[k]) {
        lemma_word_end(s, k + 1);
    }
}

pub proof fn lemma_angle_end(s: Seq<char>, k: int)
    requires
        k <= s.len(),
    ensures
        k <= angle_end(s, k) <= s.len(),
    decreases s.len() - k,
{
    if k < s.len() && s[k] != '>' {
        lemma_angle_end(s, k + 1);
    }
}

pub proof fn lemma_raw_open(s: Seq<char>, p: int, used: int)
    ensures
        raw_open(s, p, used) matches Some(o) ==> p <= o < s.len() && s[o] == '(',
    decreases s.len() - p,
{
    if !(p < 0 || p >= s.len() || used >= 17) && s[p] != '(' {
        lemma_raw_open(s, p + 1, used + utf8_width(s[p]));
    }
}

pub proof fn lemma_raw_close(s: Seq<char>, idx: int, delim: Seq<char>)
    ensures
        raw_close(s, idx, delim) matches Some(e) ==> idx + 2 <= e <= s.len(),
    decreases s.len() - idx,
{
    if !(idx < 0 || idx >= s.len()) && !raw_closes_at(s, idx, delim) {
        lemma_raw_close(s, idx + 1, delim);
    }
}

pub proof fn lemma_raw_string_close(s: Seq<char>, start: int)
    requires
        0 <= start,
    ensures
        raw_string_close(s, start) matches Some(e) ==> start < e <= s.len(),
{
    lemma_raw_open(s, start + 2, 0);
    if let Some(open) = raw_open(s, start + 2, 0) {
        lemma_raw_close(s, open + 1, s.subrange(start + 2, open));
    }
}

/// Where the lexer goes on after the character at `i`, and the token that
/// the character starts, if any.
pub open spec fn lex_step(s: Seq<char>, i: int) -> (int, Option<Seq<char>>) {
    let c = s[i];
    if c == '/' && i + 1 < s.len() && s[i + 1] == '/' {
        (line_end(s, i + 2), None)
    } else if c == '/' && i + 1 < s.len() && s[i + 1] == '*' {
        let k = block_close(s, i + 2) + 2;
        (if k <= s.len() { k } else { s.len() as int }, None)
    } else if c == '"' || c == '\'' {
        (quote_end(s, i + 1, c), None)
    } else if c == 'R' && i + 1 < s.len() && s[i + 1] == '"' {
        match raw_string_close(s, i) {
            Some(e) => (e, None),
            None => (i + 1, None),
        }
    } else if is_word_char(c) {
        let e = word_end(s, i + 1);
        (e, Some(s.subrange(i, e)))
    } else if c == '<' {
        let e = angle_end(s, i + 1);
        (e, Some(s.subrange(i, e)))
    } else if c == ';' {
        (i + 1, Some(seq![';']))
    } else {
        (i + 1, None)
    }
}

pub proof fn lemma_lex_step(s: Seq<char>, i: int)
    requires
        0 <= i < s.len(),
    ensures
        i < lex_step(s, i).0 <= s.len(),
{
    let c = s[i];
    if c == '/' && i + 1 < s.len() && s[i + 1] == '/' {
        lemma_line_end(s, i + 2);
    } else if c == '/' && i + 1 < s.len() && s[i + 1] == '*' {
        lemma_block_close(s, i + 2);
    } else if c == '"' || c == '\'' {
        lemma_quote_end(s, i + 1, c);
    } else if c == 'R' && i + 1 < s.len() && s[i + 1] == '"' {
        lemma_raw_string_close(s, i);
    } else if is_word_char(c) {
        lemma_word_end(s, i + 1);
    } else if c == '<' {
        lemma_angle_end(s, i + 1);
    }
}

/// The tokens of `s` from position `i` on.
pub open spec fn lex_from(s: Seq<char>, i: int) -> Seq<Seq<char>>
    decreases s.len() - i,
{
    if i < 0 || i >= s.len() {
        seq![]
    } else {
        let (next, tok) = lex_step(s, i);
        proof {
            lemma_lex_step(s, i);
        }
        match tok {
            Some(t) => seq![t] + lex_from(s, next),
            None => lex_from(s, next),
        }
    }
}

/// The tokens of a C++ source text: words, `<...>` spans and `;`, with
/// comments, string and character literals and raw strings dropped.
pub open spec fn lex_spec(s: Seq<char>) -> Seq<Seq<char>> {
    lex_from(s, 0)
}


/// Number of UTF-8 bytes of `c`.
fn utf8_len(c: char) -> (r: usize)
    ensures
        r == utf8_width(c),
{
    let u = c as u32;
    if u < 0x80 {
        1
    } else if u < 0x800 {
        2
    } else if u < 0x10000 {
        3
    } else {
        4
    }
}

/// Whether `)delim"` starts at `idx`, where `delim` is `v[ds..ds + dl]`.
fn raw_closes(v: &[char], idx: usize, ds: usize, dl: usize) -> (r: bool)
    requires
        idx < v@.len(),
        ds + dl <= v@.len(),
    ensures
        r == raw_closes_at(v@, idx as int, v@.subrange(ds as int, ds + dl)),
{
    let n = v.len();
    if v[idx] != ')' || dl >= n - idx - 1 {
        return false;
    }
    let ghost delim = v@.subrange(ds as int, ds + dl);
    let mut j: usize = 0;
    while j < dl
        invariant
            n == v@.len(),
            idx + 1 + dl < n,
            ds + dl <= n,
            j <= dl,
            delim == v@.subrange(ds as int, ds + dl),
            v@.subrange(idx + 1, idx + 1 + j) == v@.subrange(ds as int, ds + j),
        decreases dl - j,
    {
        if v[idx + 1 + j] != v[ds + j] {
            assert(v@.subrange(idx + 1, idx + 1 + dl)[j as int] != delim[j as int]);
            return false;
        }
        assert(v@.subrange(idx + 1, idx + 1 + j + 1) =~= v@.subrange(idx + 1, idx + 1 + j).push(v@[idx + 1 + j]));
        assert(v@.subrange(ds as int, ds + j + 1) =~= v@.subrange(ds as int, ds + j).push(v@[ds + j]));
        j += 1;
    }
    assert(v@.subrange(idx + 1, idx + 1 + dl) =~= delim);
    v[idx + 1 + dl] == '"'
}

/// Position after the raw string literal that starts at `start` (the `R`
/// of `R"`), or `None` when it has no `(` within 17 bytes or never closes.
pub fn raw_string_end(v: &[char], start: usize) -> (r: Option<usize>)
    requires
        start + 1 < v@.len(),
    ensures
        r is Some <==> raw_string_close(v@, start as int) is Some,
        r matches Some(e) ==> raw_string_close(v@, start as int) == Some(e as int),
        r matches Some(e) ==> start < e <= v@.len(),
{
    proof {
        lemma_raw_string_close(v@, start as int);
    }
    let n = v.len();
    let ds = start + 2;
    let mut p = ds;
    let mut used: usize = 0;
    while p < n && used < 17 && v[p] != '('
        invariant
            n == v@.len(),
            ds <= p <= n,
            used < 21,
            raw_open(v@, p as int, used as int) == raw_open(v@, ds as int, 0),
        decreases n - p,
    {
        used = used + utf8_len(v[p]);
        p += 1;
    }
    if p >= n || used >= 17 {
        return None;
    }
    assert(raw_open(v@, p as int, used as int) == Some(p as int));
    let open = p;
    let dl = open - ds;
    let ghost delim = v@.subrange(ds as int, open as int);
    let mut idx = open + 1;
    while idx < n
        invariant
            n == v@.len(),
            ds + dl == open,
            open < n,
            open + 1 <= idx <= n,
            delim == v@.subrange(ds as int, ds + dl),
            ds == start + 2,
            raw_open(v@, ds as int, 0) == Some(open as int),
            raw_close(v@, idx as int, delim) == raw_close(v@, open + 1, delim),
        decreases n - idx,
    {
        if raw_closes(v, idx, ds, dl) {
            assert(raw_close(v@, idx as int, delim) == Some(idx + dl + 2));
            return Some(idx + dl + 2);
        }
        idx += 1;
    }
    None
}


/// Exec form of [`line_end`].
fn scan_line(v: &[char], i: usize) -> (r: usize)
    requires
        i <= v@.len(),
    ensures
        r == line_end(v@, i as int),
{
    let mut k = i;
    while k < v.len() && v[k] != '\n'
        invariant
            i <= k <= v@.len(),
            line_end(v@, k as int) == line_end(v@, i as int),
        decreases v@.len() - k,
    {
        k += 1;
    }
    k
}

/// Exec form of [`block_close`].
fn scan_block(v: &[char], i: usize) -> (r: usize)
    requires
        i <= v@.len(),
    ensures
        r == block_close(v@, i as int),
        r <= v@.len(),
{
    let mut k = i;
    while k < v.len() && k + 1 < v.len() && !(v[k] == '*' && v[k + 1] == '/')
        invariant
            i <= k <= v@.len(),
            block_close(v@, k as int) == block_close(v@, i as int),
        decreases v@.len() - k,
    {
        k += 1;
    }
    k
}

/// Exec form of [`quote_end`].
fn scan_quoted(v: &[char], i: usize, q: char) -> (r: usize)
    requires
        i <= v@.len(),
    ensures
        r == quote_end(v@, i as int, q),
{
    let n = v.len();
    let mut k = i;
    while k < n
        invariant
            n == v@.len(),
            i <= k <= n,
            quote_end(v@, k as int, q) == quote_end(v@, i as int, q),
        decreases n - k,
    {
        if v[k] == '\\' {
            k = if n - k >= 2 { k + 2 } else { n };
        } else if v[k] == q {
            return k + 1;
        } else {
            k += 1;
        }
    }
    k
}

/// Exec form of [`word_end`].
fn scan_word(v: &[char], i: usize) -> (r: usize)
    requires
        i <= v@.len(),
    ensures
        r == word_end(v@, i as int),
{
    let mut k = i;
    while k < v.len() && (ascii_alnum(v[k]) || v[k] == '_' || v[k] == ':')
        invariant
            i <= k <= v@.len(),
            word_end(v@, k as int) == word_end(v@, i as int),
        decreases v@.len() - k,
    {
        k += 1;
    }
    k
}

/// Exec form of [`angle_end`].
fn scan_angle(v: &[char], i: usize) -> (r: usize)
    requires
        i <= v@.len(),
    ensures
        r == angle_end(v@, i as int),
{
    let mut k = i;
    while k < v.len() && v[k] != '>'
        invariant
            i <= k <= v@.len(),
            angle_end(v@, k as int) == angle_end(v@, i as int),
        decreases v@.len() - k,
    {
        k += 1;
    }
    if k < v.len() {
        k + 1
    } else {
        k
    }
}

/// The views of a list of strings.
pub open spec fn views(v: Seq<String>) -> Seq<Seq<char>> {
    v.map_values(|t: String| t@)
}

/// Tokenize only the declaration vocabulary and discard comments/strings.
pub fn lex(text: &str) -> (tokens: Vec<String>)
    ensures
        views(tokens@) == lex_spec(text@),
{
    let v = chars_of(text);
    let n = v.len();
    let mut tokens: Vec<String> = Vec::new();
    let mut index: usize = 0;
    assert(views(tokens@) =~= seq![]);
    while index < n
        invariant
            n == v@.len(),
            v@ == text@,
            index <= n,
            views(tokens@) + lex_from(v@, index as int) == lex_from(v@, 0),
        decreases n - index,
    {
        let ghost s = v@;
        let ghost i = index as int;
        let ghost before = views(tokens@);
        proof {
            lemma_lex_step(s, i);
        }
        let c = v[index];
        let next: usize;
        if c == '/' && index + 1 < n && v[index + 1] == '/' {
            next = scan_line(&v, index + 2);
        } else if c == '/' && index + 1 < n && v[index + 1] == '*' {
            let k = scan_block(&v, index + 2);
            proof {
                lemma_block_close(s, i + 2);
            }
            next = if n - k >= 2 { k + 2 } else { n };
        } else if c == '"' || c == '\'' {
            next = scan_quoted(&v, index + 1, c);
        } else if c == 'R' && index + 1 < n && v[index + 1] == '"' {
            next = match raw_string_end(&v, index) {
                Some(e) => e,
                None => index + 1,
            };
        } else if ascii_alnum(c) || c == '_' || c == ':' {
            let e = scan_word(&v, index + 1);
            let word = sub_chars(&v, index, e);
            tokens.push(string_from(&word));
            next = e;
        } else if c == '<' {
            let e = scan_angle(&v, index + 1);
            let word = sub_chars(&v, index, e);
            tokens.push(string_from(&word));
            next = e;
        } else if c == ';' {
            let mut semi = String::new();
            semi.push(';');
            tokens.push(semi);
            next = index + 1;
        } else {
            next = index + 1;
        }
        assert(next as int == lex_step(s, i).0);
        proof {
            match lex_step(s, i).1 {
                Some(t) => {
                    assert(views(tokens@) =~= before.push(t));
                    assert(lex_from(s, i) == seq![t] + lex_from(s, next as int));
                    assert(before + lex_from(s, i) =~= views(tokens@) + lex_from(s, next as int));
                },
                None => {
                    assert(views(tokens@) =~= before);
                },
            }
        }
        index = next;
    }
    assert(views(tokens@) + lex_from(v@, index as int) =~= views(tokens@));
    tokens
}


// ---------------------------------------------------------------------------
// Declarations and imports.
// ---------------------------------------------------------------------------

/// Whether a unit exports a module interface or implements one.
#[derive(Debug, Clone, Copy, PartialEq, Eq, Structural)]
pub enum DeclarationKind {
    Interface,
    Implementation,
}

/// The module declaration (the first one) and the imports of one source.
#[derive(Debug)]
pub struct SourceInfo {
    pub declaration: Option<(DeclarationKind, String)>,
    pub imports: Vec<String>,
}

/// A module declaration as plain values.
pub type DeclView = Option<(DeclarationKind, Seq<char>)>;

impl View for SourceInfo {
    type V = (DeclView, Seq<Seq<char>>);

    open spec fn view(&self) -> (DeclView, Seq<Seq<char>>) {
        (
            match self.declaration {
                Some((k, n)) => Some((k, n@)),
                None => None,
            },
            views(self.imports@),
        )
    }
}

pub open spec fn kw_export() -> Seq<char> {
    seq!['e', 'x', 'p', 'o', 'r', 't']
}

pub open spec fn kw_module() -> Seq<char> {
    seq!['m', 'o', 'd', 'u', 'l', 'e']
}

pub open spec fn kw_import() -> Seq<char> {
    seq!['i', 'm', 'p', 'o', 'r', 't']
}

pub open spec fn kw_private_partition() -> Seq<char> {
    seq![':', 'p', 'r', 'i', 'v', 'a', 't', 'e']
}

/// The module name a token names: the token without trailing `;`, unless
/// that is empty or a partition (`:name`).
pub open spec fn module_name_of(tok: Option<Seq<char>>) -> Option<Seq<char>> {
    match tok {
        Some(t) => {
            let name = trim_end_char(t, ';');
            if name.len() == 0 || name[0] == ':' {
                None
            } else {
                Some(name)
            }
        },
        None => None,
    }
}

/// The primary module name: everything before the first `:`.
pub open spec fn primary_name(name: Seq<char>) -> Seq<char>
    decreases name.len(),
{
    if name.len() == 0 || name[0] == ':' {
        seq![]
    } else {
        seq![name[0]] + primary_name(name.drop_first())
    }
}

/// An import as recorded: a partition import `:part` is qualified with the
/// primary name of the unit's own module when it has one.
pub open spec fn normalized_import(import: Seq<char>, decl: DeclView) -> Seq<char> {
    if import.len() > 0 && import[0] == ':' {
        match decl {
            Some((_, name)) => primary_name(name) + import,
            None => import,
        }
    } else {
        import
    }
}

/// The token at `i`, if any.
pub open spec fn token_at(t: Seq<Seq<char>>, i: int) -> Option<Seq<char>> {
    if 0 <= i < t.len() {
        Some(t[i])
    } else {
        None
    }
}

/// `decl`, or the new declaration when there is none yet.
pub open spec fn first_decl(decl: DeclView, kind: DeclarationKind, name: Option<Seq<char>>) -> DeclView {
    match (decl, name) {
        (None, Some(n)) => Some((kind, n)),
        _ => decl,
    }
}

/// Whether the token after `import` at `i` names a module import.
pub open spec fn import_target(t: Seq<Seq<char>>, i: int) -> bool {
    &&& i + 1 < t.len()
    &&& !(t[i + 1].len() > 0 && (t[i + 1][0] == '<' || t[i + 1][0] == '"'))
    &&& t[i + 1] != seq![';']
}

/// Scan the tokens from `i` on, with the declaration and imports found so far.
pub open spec fn parse_from(t: Seq<Seq<char>>, i: int, decl: DeclView, imports: Seq<Seq<char>>) -> (DeclView, Seq<Seq<char>>)
    decreases t.len() - i,
{
    if i < 0 || i >= t.len() {
        (decl, imports)
    } else if t[i] == kw_export() && i + 1 < t.len() && t[i + 1] == kw_module() {
        parse_from(
            t,
            if i + 3 <= t.len() { i + 3 } else { t.len() as int },
            first_decl(decl, DeclarationKind::Interface, module_name_of(token_at(t, i + 2))),
            imports,
        )
    } else if t[i] == kw_module() {
        parse_from(
            t,
            i + 1,
            first_decl(decl, DeclarationKind::Implementation, module_name_of(token_at(t, i + 1))),
            imports,
        )
    } else if t[i] == kw_import() && import_target(t, i) {
        let import = trim_end_char(t[i + 1], ';');
        if import.len() > 0 && import != kw_private_partition() {
            parse_from(t, i + 1, decl, imports.push(normalized_import(import, decl)))
        } else {
            parse_from(t, i + 1, decl, imports)
        }
    } else {
        parse_from(t, i + 1, decl, imports)
    }
}

/// The declaration and imports of a C++ source text.
pub open spec fn source_info_spec(text: Seq<char>) -> (DeclView, Seq<Seq<char>>) {
    parse_from(lex_spec(text), 0, None, seq![])
}

/// Law: the primary name of a module is the part of its name before the
/// first `:`: a prefix of the name with no `:`, followed by `:` or by
/// nothing.
pub proof fn lemma_primary_name(name: Seq<char>)
    ensures
        primary_name(name).len() <= name.len(),
        primary_name(name) == name.take(primary_name(name).len() as int),
        !primary_name(name).contains(':'),
        primary_name(name).len() < name.len() ==> name[primary_name(name).len() as int] == ':',
        name.len() > 0 && name[0] != ':' ==> primary_name(name).len() > 0,
    decreases name.len(),
{
    if name.len() > 0 && name[0] != ':' {
        lemma_primary_name(name.drop_first());
        let p = primary_name(name.drop_first());
        assert(primary_name(name) == seq![name[0]] + p);
        assert(name.take(p.len() + 1int) =~= seq![name[0]] + name.drop_first().take(p.len() as int));
        assert forall|j: int| 0 <= j < p.len() + 1 implies (seq![name[0]] + p)[j] != ':' by {
            if j > 0 {
                assert((seq![name[0]] + p)[j] == p[j - 1]);
            }
        }
        if p.len() < name.drop_first().len() {
            assert(name[p.len() + 1int] == name.drop_first()[p.len() as int]);
        }
    } else {
        assert(name.take(0) =~= seq![]);
    }
}

/// Trimming trailing `c` keeps a first character that is not `c`.
proof fn lemma_trim_end_keeps_first(s: Seq<char>, c: char)
    requires
        s.len() > 0,
        s[0] != c,
    ensures
        trim_end_char(s, c).len() > 0,
        trim_end_char(s, c)[0] == s[0],
    decreases s.len(),
{
    if s.last() == c {
        assert(s.len() > 1);
        lemma_trim_end_keeps_first(s.drop_last(), c);
    }
}

/// The imports already found stay in front of those found later.
proof fn lemma_parse_keeps_imports(t: Seq<Seq<char>>, i: int, decl: DeclView, imports: Seq<Seq<char>>)
    ensures
        parse_from(t, i, decl, imports).1.len() >= imports.len(),
        forall|j: int| 0 <= j < imports.len() ==> #[trigger] parse_from(t, i, decl, imports).1[j] == imports[j],
    decreases t.len() - i,
{
    if 0 <= i < t.len() {
        if t[i] == kw_export() && i + 1 < t.len() && t[i + 1] == kw_module() {
            lemma_parse_keeps_imports(
                t,
                if i + 3 <= t.len() { i + 3 } else { t.len() as int },
                first_decl(decl, DeclarationKind::Interface, module_name_of(token_at(t, i + 2))),
                imports,
            );
        } else if t[i] == kw_module() {
            lemma_parse_keeps_imports(
                t,
                i + 1,
                first_decl(decl, DeclarationKind::Implementation, module_name_of(token_at(t, i + 1))),
                imports,
            );
        } else if t[i] == kw_import() && import_target(t, i) {
            let import = trim_end_char(t[i + 1], ';');
            if import.len() > 0 && import != kw_private_partition() {
                let next = imports.push(normalized_import(import, decl));
                lemma_parse_keeps_imports(t, i + 1, decl, next);
                assert forall|j: int| 0 <= j < imports.len() implies #[trigger] parse_from(t, i, decl, imports).1[j]
                    == imports[j] by {
                    assert(next[j] == imports[j]);
                }
            } else {
                lemma_parse_keeps_imports(t, i + 1, decl, imports);
            }
        } else {
            lemma_parse_keeps_imports(t, i + 1, decl, imports);
        }
    }
}

/// No recorded import begins with `:`.
pub open spec fn no_bare_partitions(imports: Seq<Seq<char>>) -> bool {
    forall|j: int| 0 <= j < imports.len() ==> (#[trigger] imports[j]).len() > 0 && imports[j][0] != ':'
}

/// Once the unit's module is known, the declaration stays and no import is
/// recorded as a bare partition.
proof fn lemma_parse_after_declaration(t: Seq<Seq<char>>, i: int, decl: DeclView, imports: Seq<Seq<char>>)
    requires
        decl matches Some((_, n)) && primary_name(n).len() > 0,
        no_bare_partitions(imports),
    ensures
        parse_from(t, i, decl, imports).0 == decl,
        no_bare_partitions(parse_from(t, i, decl, imports).1),
    decreases t.len() - i,
{
    let n = decl->Some_0.1;
    lemma_primary_name(n);
    if 0 <= i < t.len() {
        if t[i] == kw_export() && i + 1 < t.len() && t[i + 1] == kw_module() {
            lemma_parse_after_declaration(t, if i + 3 <= t.len() { i + 3 } else { t.len() as int }, decl, imports);
        } else if t[i] == kw_module() {
            lemma_parse_after_declaration(t, i + 1, decl, imports);
        } else if t[i] == kw_import() && import_target(t, i) {
            let import = trim_end_char(t[i + 1], ';');
            if import.len() > 0 && import != kw_private_partition() {
                let rec = normalized_import(import, decl);
                if import[0] == ':' {
                    assert(rec == primary_name(n) + import);
                    assert(rec[0] == primary_name(n)[0]);
                    assert(primary_name(n).contains(primary_name(n)[0]));
                } else {
                    assert(rec == import);
                }
                let next = imports.push(rec);
                assert(no_bare_partitions(next)) by {
                    assert forall|j: int| 0 <= j < next.len() implies (#[trigger] next[j]).len() > 0 && next[j][0] != ':' by {
                        if j < imports.len() {
                            assert(next[j] == imports[j]);
                        }
                    }
                }
                lemma_parse_after_declaration(t, i + 1, decl, next);
            } else {
                lemma_parse_after_declaration(t, i + 1, decl, imports);
            }
        } else {
            lemma_parse_after_declaration(t, i + 1, decl, imports);
        }
    }
}

/// An import of partition `:p` at token `i` (not the name of a module
/// declaration) is recorded as `M:p`, `M` the primary name of the module
/// already declared.
proof fn lemma_parse_records_partition(t: Seq<Seq<char>>, s: int, decl: DeclView, imports: Seq<Seq<char>>, i: int)
    requires
        decl matches Some((_, n)),
        0 <= s <= i,
        i + 1 < t.len(),
        t[i] == kw_import(),
        i > 0 ==> t[i - 1] != kw_module(),
        t[i + 1].len() > 0 && t[i + 1][0] == ':',
        trim_end_char(t[i + 1], ';') != kw_private_partition(),
    ensures
        parse_from(t, s, decl, imports).1.contains(primary_name(decl->Some_0.1) + trim_end_char(t[i + 1], ';')),
    decreases t.len() - s,
{
    assert(kw_import()[0] != kw_export()[0]);
    assert(kw_import()[0] != kw_module()[0]);
    if s == i {
        let import = trim_end_char(t[i + 1], ';');
        lemma_trim_end_keeps_first(t[i + 1], ';');
        assert(import.len() > 0 && import[0] == ':');
        assert(import_target(t, i));
        let next = imports.push(normalized_import(import, decl));
        lemma_parse_keeps_imports(t, i + 1, decl, next);
        let r = parse_from(t, i + 1, decl, next);
        assert(r.1[imports.len() as int] == next[imports.len() as int]);
    } else {
        if t[s] == kw_export() && s + 1 < t.len() && t[s + 1] == kw_module() {
            assert(s + 3 <= i);
            lemma_parse_records_partition(t, s + 3, first_decl(decl, DeclarationKind::Interface, module_name_of(token_at(t, s + 2))), imports, i);
        } else if t[s] == kw_module() {
            lemma_parse_records_partition(t, s + 1, first_decl(decl, DeclarationKind::Implementation, module_name_of(token_at(t, s + 1))), imports, i);
        } else if t[s] == kw_import() && import_target(t, s) {
            let import = trim_end_char(t[s + 1], ';');
            if import.len() > 0 && import != kw_private_partition() {
                lemma_parse_records_partition(t, s + 1, decl, imports.push(normalized_import(import, decl)), i);
            } else {
                lemma_parse_records_partition(t, s + 1, decl, imports, i);
            }
        } else {
            lemma_parse_records_partition(t, s + 1, decl, imports, i);
        }
    }
}

/// The source's tokens open with a module declaration, `export module M`
/// or `module M`, for module `m`.
pub open spec fn declares_first(text: Seq<char>, m: Seq<char>) -> bool {
    let t = lex_spec(text);
    ||| t.len() >= 3 && t[0] == kw_export() && t[1] == kw_module() && module_name_of(Some(t[2])) == Some(m)
    ||| t.len() >= 2 && t[0] == kw_module() && module_name_of(Some(t[1])) == Some(m)
}

/// Law: in a source that opens with the declaration of module `m` (or of
/// one of its partitions `M:q`), the declaration names `m`, no import is
/// recorded as a bare partition `:p`, and each import of a partition `:p`
/// is recorded as `M:p`, `M` the primary name of `m`. So
/// `export module shapes; export import :part;` imports `shapes:part`.
pub proof fn lemma_partition_imports_qualified(text: Seq<char>, m: Seq<char>, i: int)
    requires
        declares_first(text, m),
    ensures
        source_info_spec(text).0 matches Some((_, n)) && n == m,
        no_bare_partitions(source_info_spec(text).1),
        0 <= i && i + 1 < lex_spec(text).len() && lex_spec(text)[i] == kw_import() && (i > 0 ==> lex_spec(text)[i - 1]
            != kw_module()) && lex_spec(text)[i + 1].len() > 0 && lex_spec(text)[i + 1][0] == ':' && trim_end_char(
            lex_spec(text)[i + 1],
            ';',
        ) != kw_private_partition() ==> source_info_spec(text).1.contains(
            primary_name(m) + trim_end_char(lex_spec(text)[i + 1], ';'),
        ),
{
    let t = lex_spec(text);
    assert(kw_import()[0] != kw_export()[0]);
    assert(kw_import()[0] != kw_module()[0]);
    assert(kw_export()[0] != kw_module()[0]);
    assert(m.len() > 0 && m[0] != ':');
    lemma_primary_name(m);
    assert(no_bare_partitions(seq![]));
    if t.len() >= 3 && t[0] == kw_export() && t[1] == kw_module() && module_name_of(Some(t[2])) == Some(m) {
        let d: DeclView = Some((DeclarationKind::Interface, m));
        assert(token_at(t, 2) == Some(t[2]));
        assert(source_info_spec(text) == parse_from(t, 3, d, seq![]));
        lemma_parse_after_declaration(t, 3, d, seq![]);
        if 0 <= i && i + 1 < t.len() && t[i] == kw_import() && (i > 0 ==> t[i - 1] != kw_module()) && t[i + 1].len() > 0
            && t[i + 1][0] == ':' && trim_end_char(t[i + 1], ';') != kw_private_partition() {
            assert(i >= 3);
            lemma_parse_records_partition(t, 3, d, seq![], i);
        }
    } else {
        let d: DeclView = Some((DeclarationKind::Implementation, m));
        assert(t[0] != kw_export());
        assert(token_at(t, 1) == Some(t[1]));
        assert(source_info_spec(text) == parse_from(t, 1, d, seq![]));
        lemma_parse_after_declaration(t, 1, d, seq![]);
        if 0 <= i && i + 1 < t.len() && t[i] == kw_import() && (i > 0 ==> t[i - 1] != kw_module()) && t[i + 1].len() > 0
            && t[i + 1][0] == ':' && trim_end_char(t[i + 1], ';') != kw_private_partition() {
            assert(i >= 1);
            lemma_parse_records_partition(t, 1, d, seq![], i);
        }
    }
}

/// The characters of an optional token.
pub open spec fn opt_chars(token: Option<&Vec<char>>) -> Option<Seq<char>> {
    match token {
        Some(t) => Some(t@),
        None => None,
    }
}

/// Exec form of [`module_name_of`].
fn module_name(token: Option<&Vec<char>>) -> (r: Option<Vec<char>>)
    ensures
        r matches Some(n) ==> module_name_of(opt_chars(token)) == Some(n@),
        r is None ==> module_name_of(opt_chars(token)) is None,
{
    match token {
        Some(t) => {
            let name = trim_end(t.as_slice(), ';');
            if name.len() == 0 || name[0] == ':' {
                None
            } else {
                Some(name)
            }
        },
        None => None,
    }
}

/// Exec form of [`primary_name`].
fn primary(name: &[char]) -> (r: Vec<char>)
    ensures
        r@ == primary_name(name@),
{
    let mut k: usize = 0;
    assert(name@.take(0) =~= seq![]);
    assert(name@.skip(0) =~= name@);
    while k < name.len() && name[k] != ':'
        invariant
            k <= name@.len(),
            primary_name(name@) == name@.take(k as int) + primary_name(name@.skip(k as int)),
        decreases name@.len() - k,
    {
        assert(name@.skip(k as int).drop_first() =~= name@.skip(k + 1));
        assert(name@.take(k + 1) =~= name@.take(k as int) + seq![name@[k as int]]);
        k += 1;
    }
    assert(name@.take(k as int) =~= name@.subrange(0, k as int));
    sub_chars(name, 0, k)
}

/// Whether the token after `import` names a module (not a header or `;`).
fn is_import_target(next: &Vec<char>) -> (r: bool)
    ensures
        r == (!(next@.len() > 0 && (next@[0] == '<' || next@[0] == '"')) && next@ != seq![';']),
{
    if next.len() > 0 && (next[0] == '<' || next[0] == '"') {
        return false;
    }
    let semi = is_word(next, &[';']);
    assert(semi == (next@ == seq![';'])) by {
        assert([';']@ =~= seq![';']);
    }
    !semi
}

/// Whether the characters `t` equal `lit`.
fn is_word(t: &Vec<char>, lit: &[char]) -> (r: bool)
    ensures
        r == (t@ == lit@),
{
    chars_eq(t.as_slice(), lit)
}

/// The declaration (the first one wins) and imports of a C++ source text.
pub fn parse_source(text: &str) -> (info: SourceInfo)
    ensures
        info@ == source_info_spec(text@),
{
    let (decl, imports) = scan_declarations(text);
    let declaration = match decl {
        Some((k, nm)) => Some((k, string_from(nm.as_slice()))),
        None => None,
    };
    let mut out: Vec<String> = Vec::new();
    for j in 0..imports.len()
        invariant
            out@.len() == j,
            j <= imports@.len(),
            forall|q: int| 0 <= q < j ==> #[trigger] out@[q]@ == imports@[q]@,
    {
        out.push(string_from(imports[j].as_slice()));
    }
    let info = SourceInfo { declaration, imports: out };
    assert(views(info.imports@) =~= views_of(imports@));
    info
}

/// [`parse_source`] with the names as characters.
fn scan_declarations(text: &str) -> (r: (Option<(DeclarationKind, Vec<char>)>, Vec<Vec<char>>))
    ensures
        (decl_view(r.0), views_of(r.1@)) == source_info_spec(text@),
{
    let tokens = lex(text);
    let mut toks: Vec<Vec<char>> = Vec::new();
    for j in 0..tokens.len()
        invariant
            toks@.len() == j,
            j <= tokens@.len(),
            forall|q: int| 0 <= q < j ==> #[trigger] toks@[q]@ == tokens@[q]@,
    {
        toks.push(chars_of(tokens[j].as_str()));
    }
    let ghost t = views(tokens@);
    assert(t == lex_spec(text@));
    let n = toks.len();
    let mut decl: Option<(DeclarationKind, Vec<char>)> = None;
    let mut imports: Vec<Vec<char>> = Vec::new();
    let mut index: usize = 0;
    assert(views_of(imports@) =~= seq![]);
    while index < n
        invariant
            n == toks@.len(),
            n == t.len(),
            forall|q: int| 0 <= q < n ==> #[trigger] toks@[q]@ == t[q],
            index <= n,
            parse_from(t, index as int, decl_view(decl), views_of(imports@)) == parse_from(t, 0, None, seq![]),
        decreases n - index,
    {
        let ghost i = index as int;
        let ghost d0 = decl_view(decl);
        let ghost im0 = views_of(imports@);
        assert(toks@[i]@ == t[i]);
        let is_export = is_word(&toks[index], &['e', 'x', 'p', 'o', 'r', 't']);
        assert(is_export == (t[i] == kw_export()));
        if is_export && index + 1 < n
            && is_word(&toks[index + 1], &['m', 'o', 'd', 'u', 'l', 'e']) {
            assert(toks@[i + 1]@ == t[i + 1]);
            let tok = if index + 2 < n { Some(&toks[index + 2]) } else { None };
            assert(opt_chars(tok) == token_at(t, i + 2));
            let name = module_name(tok);
            if decl.is_none() {
                if let Some(nm) = name {
                    decl = Some((DeclarationKind::Interface, nm));
                }
            }
            assert(decl_view(decl) == first_decl(d0, DeclarationKind::Interface, module_name_of(token_at(t, i + 2))));
            index = if n - index >= 3 { index + 3 } else { n };
        } else if is_word(&toks[index], &['m', 'o', 'd', 'u', 'l', 'e']) {
            let tok = if index + 1 < n { Some(&toks[index + 1]) } else { None };
            assert(tok is Some ==> toks@[i + 1]@ == t[i + 1]);
            assert(opt_chars(tok) == token_at(t, i + 1));
            let name = module_name(tok);
            if decl.is_none() {
                if let Some(nm) = name {
                    decl = Some((DeclarationKind::Implementation, nm));
                }
            }
            assert(decl_view(decl) == first_decl(d0, DeclarationKind::Implementation, module_name_of(token_at(t, i + 1))));
            index += 1;
        } else if is_word(&toks[index], &['i', 'm', 'p', 'o', 'r', 't']) && index + 1 < n
            && is_import_target(&toks[index + 1]) {
            assert(toks@[i + 1]@ == t[i + 1]);
            assert(import_target(t, i));
            let import = trim_end(toks[index + 1].as_slice(), ';');
            if import.len() > 0 && !is_word(&import, &[':', 'p', 'r', 'i', 'v', 'a', 't', 'e']) {
                let normalized = if import[0] == ':' {
                    match &decl {
                        Some((_, name)) => {
                            let mut base = primary(name.as_slice());
                            for q in 0..import.len()
                                invariant
                                    base@ == primary_name(name@) + import@.take(q as int),
                            {
                                base.push(import[q]);
                                assert(import@.take(q + 1) =~= import@.take(q as int).push(import@[q as int]));
                            }
                            assert(import@.take(import@.len() as int) =~= import@);
                            base
                        },
                        None => import,
                    }
                } else {
                    import
                };
                assert(normalized@ == normalized_import(import@, d0));
                imports.push(normalized);
                assert(views_of(imports@) =~= im0.push(normalized_import(trim_end_char(t[i + 1], ';'), d0)));
            } else {
                assert(!(import@.len() > 0 && import@ != kw_private_partition()));
            }
            index += 1;
        } else {
            index += 1;
        }
    }
    (decl, imports)
}

/// The views of a list of character vectors.
pub open spec fn views_of(v: Seq<Vec<char>>) -> Seq<Seq<char>> {
    v.map_values(|t: Vec<char>| t@)
}

/// The view of a declaration held in character vectors.
pub open spec fn decl_view(d: Option<(DeclarationKind, Vec<char>)>) -> DeclView {
    match d {
        Some((k, n)) => Some((k, n@)),
        None => None,
    }
}


// ---------------------------------------------------------------------------
// Compilation waves.
// ---------------------------------------------------------------------------

/// The members of `s` below `n`, in increasing order.
pub open spec fn ascending(n: int, s: Set<int>) -> Seq<int>
    decreases n,
{
    if n <= 0 {
        seq![]
    } else if s.contains(n - 1) {
        ascending(n - 1, s).push(n - 1)
    } else {
        ascending(n - 1, s)
    }
}

/// The units of `rem` none of whose dependencies is still in `rem`.
pub open spec fn ready_set(deps: Seq<Set<int>>, rem: Set<int>) -> Set<int> {
    rem.filter(|i: int| forall|p: int| #[trigger] deps[i].contains(p) ==> !rem.contains(p))
}

pub proof fn lemma_ready_shrinks(deps: Seq<Set<int>>, rem: Set<int>)
    requires
        rem.finite(),
        ready_set(deps, rem).len() > 0,
    ensures
        rem.difference(ready_set(deps, rem)).finite(),
        rem.difference(ready_set(deps, rem)).len() < rem.len(),
{
    let w = ready_set(deps, rem);
    assert(w.subset_of(rem));
    vstd::set_lib::lemma_len_subset(w, rem);
    let e = w.choose();
    assert(w.contains(e)) by {
        if !w.contains(e) {
            assert(w =~= Set::empty());
        }
    }
    let d = rem.difference(w);
    assert(d.subset_of(rem.remove(e)));
    vstd::set_lib::lemma_len_subset(d, rem.remove(e));
}

/// Compilation waves for the units in `rem`: each wave holds, in increasing
/// order, every unit whose dependencies are all in earlier waves. `Err`
/// holds the units left when no remaining unit can go next.
pub open spec fn plan_waves(deps: Seq<Set<int>>, rem: Set<int>, n: int) -> core::result::Result<Seq<Seq<int>>, Set<int>>
    decreases rem.len(),
    when rem.finite()
{
    if rem.len() == 0 {
        Ok(seq![])
    } else {
        let w = ready_set(deps, rem);
        if w.len() == 0 {
            Err(rem)
        } else {
            proof {
                lemma_ready_shrinks(deps, rem);
            }
            match plan_waves(deps, rem.difference(w), n) {
                Ok(ws) => Ok(seq![ascending(n, w)] + ws),
                Err(r) => Err(r),
            }
        }
    }
}

pub proof fn lemma_ascending(n: int, s: Set<int>)
    ensures
        forall|k: int| 0 <= k < ascending(n, s).len() ==> 0 <= #[trigger] ascending(n, s)[k] < n
            && s.contains(ascending(n, s)[k]),
        forall|a: int, b: int| 0 <= a < b < ascending(n, s).len() ==> ascending(n, s)[a] < ascending(n, s)[b],
        forall|i: int| 0 <= i < n && s.contains(i) ==> #[trigger] ascending(n, s).contains(i),
    decreases n,
{
    if n > 0 {
        lemma_ascending(n - 1, s);
        let prev = ascending(n - 1, s);
        if s.contains(n - 1) {
            assert forall|i: int| 0 <= i < n && s.contains(i) implies #[trigger] ascending(n, s).contains(i) by {
                if i < n - 1 {
                    assert(prev.contains(i));
                    let k = choose|k: int| 0 <= k < prev.len() && prev[k] == i;
                    assert(ascending(n, s)[k] == i);
                } else {
                    assert(ascending(n, s)[prev.len() as int] == i);
                }
            }
        } else {
            assert forall|i: int| 0 <= i < n && s.contains(i) implies #[trigger] ascending(n, s).contains(i) by {
                assert(prev.contains(i));
            }
        }
    }
}

/// Every unit of `rem` lies below `n`.
pub open spec fn within(rem: Set<int>, n: int) -> bool {
    forall|i: int| #[trigger] rem.contains(i) ==> 0 <= i < n
}

/// Law: the waves hold every unit of `rem` exactly once, and nothing else.
pub proof fn lemma_waves_partition(deps: Seq<Set<int>>, rem: Set<int>, n: int)
    requires
        rem.finite(),
        within(rem, n),
    ensures
        plan_waves(deps, rem, n) matches Ok(ws) ==> {
            &&& forall|i: int| rem.contains(i) <==> exists|a: int, x: int|
                0 <= a < ws.len() && 0 <= x < ws[a].len() && #[trigger] ws[a][x] == i
            &&& forall|a: int, x: int, b: int, y: int|
                0 <= a < ws.len() && 0 <= x < ws[a].len() && 0 <= b < ws.len() && 0 <= y < ws[b].len()
                    && #[trigger] ws[a][x] == #[trigger] ws[b][y] ==> a == b && x == y
        },
    decreases rem.len(),
{
    if rem.len() == 0 {
        assert(rem =~= Set::empty()) by {
            if rem != Set::<int>::empty() {
                let e = rem.choose();
                assert(rem.contains(e)) by {
                    if !rem.contains(e) {
                        assert(rem =~= Set::empty());
                    }
                }
                assert(rem.remove(e).len() + 1 == rem.len());
            }
        }
    } else {
        let w = ready_set(deps, rem);
        if w.len() > 0 {
            lemma_ready_shrinks(deps, rem);
            let rest = rem.difference(w);
            lemma_waves_partition(deps, rest, n);
            lemma_ascending(n, w);
            if let Ok(ws) = plan_waves(deps, rem, n) {
                let tail = plan_waves(deps, rest, n)->Ok_0;
                let head = ascending(n, w);
                assert(ws == seq![head] + tail);
                assert forall|i: int| rem.contains(i) implies exists|a: int, x: int|
                    0 <= a < ws.len() && 0 <= x < ws[a].len() && #[trigger] ws[a][x] == i by {
                    if w.contains(i) {
                        assert(head.contains(i));
                        let x = choose|x: int| 0 <= x < head.len() && head[x] == i;
                        assert(ws[0][x] == i);
                    } else {
                        assert(rest.contains(i));
                        let (a, x) = choose|a: int, x: int| 0 <= a < tail.len() && 0 <= x < tail[a].len() && #[trigger] tail[a][x] == i;
                        assert(ws[a + 1][x] == i);
                    }
                }
                assert forall|a: int, x: int| 0 <= a < ws.len() && 0 <= x < ws[a].len() implies rem.contains(#[trigger] ws[a][x]) by {
                    if a == 0 {
                        assert(w.contains(head[x]));
                    } else {
                        assert(ws[a][x] == tail[a - 1][x]);
                        assert(rest.contains(tail[a - 1][x]));
                    }
                }
                assert forall|a: int, x: int, b: int, y: int|
                    0 <= a < ws.len() && 0 <= x < ws[a].len() && 0 <= b < ws.len() && 0 <= y < ws[b].len()
                        && #[trigger] ws[a][x] == #[trigger] ws[b][y] implies a == b && x == y by {
                    if a == 0 && b == 0 {
                        if x < y {
                            assert(head[x] < head[y]);
                        } else if y < x {
                            assert(head[y] < head[x]);
                        }
                    } else if a == 0 {
                        assert(w.contains(head[x]));
                        assert(ws[b][y] == tail[b - 1][y]);
                        assert(rest.contains(tail[b - 1][y]));
                    } else if b == 0 {
                        assert(w.contains(head[y]));
                        assert(ws[a][x] == tail[a - 1][x]);
                        assert(rest.contains(tail[a - 1][x]));
                    } else {
                        assert(ws[a][x] == tail[a - 1][x]);
                        assert(ws[b][y] == tail[b - 1][y]);
                    }
                }
            }
        }
    }
}

/// Law: a unit's dependencies that are in `rem` all lie in earlier waves.
pub proof fn lemma_waves_order(deps: Seq<Set<int>>, rem: Set<int>, n: int)
    requires
        rem.finite(),
        within(rem, n),
    ensures
        plan_waves(deps, rem, n) matches Ok(ws) ==> forall|a: int, x: int, p: int|
            0 <= a < ws.len() && 0 <= x < ws[a].len() && #[trigger] deps[ws[a][x]].contains(p) && rem.contains(p)
                ==> exists|b: int, y: int| 0 <= b < a && 0 <= y < ws[b].len() && #[trigger] ws[b][y] == p,
    decreases rem.len(),
{
    if rem.len() > 0 {
        let w = ready_set(deps, rem);
        if w.len() > 0 {
            lemma_ready_shrinks(deps, rem);
            let rest = rem.difference(w);
            lemma_waves_order(deps, rest, n);
            lemma_waves_partition(deps, rest, n);
            lemma_ascending(n, w);
            if let Ok(ws) = plan_waves(deps, rem, n) {
                let tail = plan_waves(deps, rest, n)->Ok_0;
                let head = ascending(n, w);
                assert(ws == seq![head] + tail);
                assert forall|a: int, x: int, p: int|
                    0 <= a < ws.len() && 0 <= x < ws[a].len() && #[trigger] deps[ws[a][x]].contains(p) && rem.contains(p)
                        implies exists|b: int, y: int| 0 <= b < a && 0 <= y < ws[b].len() && #[trigger] ws[b][y] == p by {
                    if a == 0 {
                        assert(w.contains(head[x]));
                    } else {
                        assert(ws[a][x] == tail[a - 1][x]);
                        if w.contains(p) {
                            assert(head.contains(p));
                            let y = choose|y: int| 0 <= y < head.len() && head[y] == p;
                            assert(ws[0][y] == p);
                        } else {
                            assert(rest.contains(p));
                            let (b, y) = choose|b: int, y: int| 0 <= b < a - 1 && 0 <= y < tail[b].len() && #[trigger] tail[b][y] == p;
                            assert(ws[b + 1][y] == p);
                        }
                    }
                }
            }
        }
    }
}

/// Law: every wave that planning produces holds at least one unit.
pub proof fn lemma_waves_nonempty(deps: Seq<Set<int>>, rem: Set<int>, n: int)
    requires
        rem.finite(),
        within(rem, n),
    ensures
        plan_waves(deps, rem, n) matches Ok(ws) ==> forall|a: int| 0 <= a < ws.len() ==> #[trigger] ws[a].len() > 0,
    decreases rem.len(),
{
    if rem.len() > 0 {
        let w = ready_set(deps, rem);
        if w.len() > 0 {
            lemma_ready_shrinks(deps, rem);
            let rest = rem.difference(w);
            lemma_waves_nonempty(deps, rest, n);
            lemma_ascending(n, w);
            let e = w.choose();
            assert(w.contains(e)) by {
                if !w.contains(e) {
                    assert(w =~= Set::empty());
                }
            }
            assert(ascending(n, w).contains(e));
            if let Ok(ws) = plan_waves(deps, rem, n) {
                let tail = plan_waves(deps, rest, n)->Ok_0;
                assert(ws == seq![ascending(n, w)] + tail);
                assert forall|a: int| 0 <= a < ws.len() implies #[trigger] ws[a].len() > 0 by {
                    if a > 0 {
                        assert(ws[a] == tail[a - 1]);
                    }
                }
            }
        }
    }
}

/// Unit `u` depends on some unit of `wave`.
pub open spec fn depends_on_wave(deps: Seq<Set<int>>, u: int, wave: Seq<int>) -> bool {
    exists|y: int| 0 <= y < wave.len() && deps[u].contains(#[trigger] wave[y])
}

/// Every unit after the first wave depends on a unit of the wave before it.
pub open spec fn waves_earliest(deps: Seq<Set<int>>, ws: Seq<Seq<int>>) -> bool {
    forall|a: int, x: int|
        #![trigger ws[a][x]]
        0 < a < ws.len() && 0 <= x < ws[a].len() ==> depends_on_wave(deps, ws[a][x], ws[a - 1])
}

/// Law: every unit after the first wave depends on a unit of the wave just
/// before it, so each unit is compiled as early as its dependencies allow.
pub proof fn lemma_waves_earliest(deps: Seq<Set<int>>, rem: Set<int>, n: int)
    requires
        rem.finite(),
        within(rem, n),
    ensures
        plan_waves(deps, rem, n) matches Ok(ws) ==> waves_earliest(deps, ws),
    decreases rem.len(),
{
    if rem.len() > 0 {
        let w = ready_set(deps, rem);
        if w.len() > 0 {
            lemma_ready_shrinks(deps, rem);
            let rest = rem.difference(w);
            lemma_waves_earliest(deps, rest, n);
            lemma_waves_partition(deps, rest, n);
            lemma_ascending(n, w);
            if let Ok(ws) = plan_waves(deps, rem, n) {
                let tail = plan_waves(deps, rest, n)->Ok_0;
                let head = ascending(n, w);
                assert(ws == seq![head] + tail);
                assert(waves_earliest(deps, tail));
                assert forall|a: int, x: int| #![trigger ws[a][x]] 0 < a < ws.len() && 0 <= x < ws[a].len() implies depends_on_wave(
                    deps,
                    ws[a][x],
                    ws[a - 1],
                ) by {
                    assert(ws[a] == tail[a - 1]);
                    if a == 1 {
                        let u = tail[0][x];
                        assert(rest.contains(u));
                        let w2 = ready_set(deps, rest);
                        assert(rest.len() > 0);
                        assert(w2.len() > 0);
                        lemma_ascending(n, w2);
                        assert(tail[0] == ascending(n, w2));
                        assert(w2.contains(u));
                        assert(!w.contains(u));
                        let p = choose|p: int| #[trigger] deps[u].contains(p) && rem.contains(p);
                        assert(!rest.contains(p));
                        assert(w.contains(p));
                        assert(0 <= p < n);
                        assert(head.contains(p));
                        let y = choose|y: int| 0 <= y < head.len() && head[y] == p;
                        assert(ws[0][y] == p);
                        assert(ws[a][x] == u);
                        assert(deps[ws[a][x]].contains(ws[a - 1][y]));
                        assert(depends_on_wave(deps, ws[a][x], ws[a - 1]));
                    } else {
                        assert(ws[a - 1] == tail[a - 2]);
                        assert(tail[a - 1][x] == ws[a][x]);
                        assert(depends_on_wave(deps, tail[a - 1][x], tail[a - 2]));
                    }
                }
            }
        }
    }
}

/// A nonempty set of units each of which depends on another unit of the set:
/// none of them can be compiled first.
pub open spec fn blocked(deps: Seq<Set<int>>, s: Set<int>) -> bool {
    &&& s.finite()
    &&& s.len() > 0
    &&& forall|i: int| #[trigger] s.contains(i) ==> exists|p: int| deps[i].contains(p) && s.contains(p)
}

/// Law: planning fails exactly on a blocked set, and the units it reports
/// are one.
pub proof fn lemma_waves_fail_blocked(deps: Seq<Set<int>>, rem: Set<int>, n: int)
    requires
        rem.finite(),
    ensures
        plan_waves(deps, rem, n) matches Err(stuck) ==> stuck.subset_of(rem) && blocked(deps, stuck),
    decreases rem.len(),
{
    if rem.len() > 0 {
        let w = ready_set(deps, rem);
        if w.len() > 0 {
            lemma_ready_shrinks(deps, rem);
            lemma_waves_fail_blocked(deps, rem.difference(w), n);
        } else {
            assert forall|i: int| #[trigger] rem.contains(i) implies exists|p: int| deps[i].contains(p) && rem.contains(p) by {
                if !(exists|p: int| deps[i].contains(p) && rem.contains(p)) {
                    assert(w.contains(i));
                    assert(w.len() > 0) by {
                        vstd::set_lib::lemma_set_subset_finite(rem, w);
                        assert(w.remove(i).len() + 1 == w.len());
                    }
                }
            }
        }
    }
}

/// Law: when some blocked set lies in `rem`, planning fails.
pub proof fn lemma_blocked_set_fails(deps: Seq<Set<int>>, rem: Set<int>, n: int, s: Set<int>)
    requires
        rem.finite(),
        s.subset_of(rem),
        blocked(deps, s),
    ensures
        plan_waves(deps, rem, n) is Err,
    decreases rem.len(),
{
    vstd::set_lib::lemma_len_subset(s, rem);
    if rem.len() > 0 {
        let w = ready_set(deps, rem);
        if w.len() > 0 {
            lemma_ready_shrinks(deps, rem);
            assert forall|i: int| s.contains(i) implies !w.contains(i) by {
                let p = choose|p: int| deps[i].contains(p) && s.contains(p);
                assert(rem.contains(p));
            }
            lemma_blocked_set_fails(deps, rem.difference(w), n, s);
        }
    }
}

/// The dependency set of a list of producer indices.
pub open spec fn index_set(d: Seq<usize>) -> Set<int> {
    Set::new(|p: int| exists|k: int| 0 <= k < d.len() && d[k] as int == p)
}

/// The dependency sets of all units.
pub open spec fn dep_sets(deps: Seq<Vec<usize>>) -> Seq<Set<int>> {
    deps.map_values(|d: Vec<usize>| index_set(d@))
}

/// Waves as integer sequences.
pub open spec fn waves_view(w: Seq<Vec<usize>>) -> Seq<Seq<int>> {
    w.map_values(|v: Vec<usize>| v@.map_values(|x: usize| x as int))
}

/// `pre` put in front of the waves of `r`.
pub open spec fn prepend_waves(pre: Seq<Seq<int>>, r: core::result::Result<Seq<Seq<int>>, Set<int>>) -> core::result::Result<Seq<Seq<int>>, Set<int>> {
    match r {
        Ok(ws) => Ok(pre + ws),
        Err(x) => Err(x),
    }
}

/// The message for units that import each other in a cycle.
pub open spec fn cycle_message(sources: Seq<Seq<char>>, stuck: Seq<int>) -> Seq<char> {
    "cyclic C++ module imports involving: "@ + join_with(stuck.map_values(|i: int| sources[i]), ", "@)
}

/// Whether none of `d` is still remaining.
fn deps_clear(d: &Vec<usize>, remaining: &Vec<bool>) -> (r: bool)
    requires
        forall|k: int| 0 <= k < d@.len() ==> (#[trigger] d@[k]) < remaining@.len(),
    ensures
        r == forall|p: int| #[trigger] index_set(d@).contains(p) ==> !remaining@[p],
{
    for k in 0..d.len()
        invariant
            forall|j: int| 0 <= j < d@.len() ==> (#[trigger] d@[j]) < remaining@.len(),
            forall|j: int| 0 <= j < k ==> !remaining@[#[trigger] d@[j] as int],
    {
        if remaining[d[k]] {
            assert(index_set(d@).contains(d@[k as int] as int));
            return false;
        }
    }
    assert forall|p: int| #[trigger] index_set(d@).contains(p) implies !remaining@[p] by {
        let j = choose|j: int| 0 <= j < d@.len() && d@[j] as int == p;
        assert(!remaining@[d@[j] as int]);
    }
    true
}

/// The set of units still flagged in `remaining`.
pub open spec fn flagged(remaining: Seq<bool>) -> Set<int> {
    Set::new(|i: int| 0 <= i < remaining.len() && remaining[i])
}

/// Order units into compilation waves: each wave holds, in increasing
/// order, the units whose dependencies are all in earlier waves. Fails with
/// the units left over when they import each other in a cycle.
pub fn topological_waves(deps: &Vec<Vec<usize>>, units: &[crate::language::CompileUnit]) -> (r: crate::error::Result<Vec<Vec<usize>>>)
    requires
        deps@.len() == units@.len(),
        forall|i: int, k: int| 0 <= i < deps@.len() && 0 <= k < deps@[i]@.len() ==> (#[trigger] deps@[i]@[k]) < deps@.len(),
    ensures
        ({
            let n = deps@.len() as int;
            match plan_waves(dep_sets(deps@), vstd::set_lib::set_int_range(0, n), n) {
                Ok(ws) => r matches Ok(w) && waves_view(w@) == ws,
                Err(stuck) => r matches Err(crate::error::CbldError::LayoutViolation(m))
                    && m@ == cycle_message(units@.map_values(|u: crate::language::CompileUnit| u.source@), ascending(n, stuck)),
            }
        }),
{
    let n = deps.len();
    let ghost dsets = dep_sets(deps@);
    let mut remaining: Vec<bool> = Vec::new();
    for i in 0..n
        invariant
            remaining@.len() == i,
            forall|j: int| 0 <= j < i ==> remaining@[j],
    {
        remaining.push(true);
    }
    let mut waves: Vec<Vec<usize>> = Vec::new();
    assert(flagged(remaining@) =~= vstd::set_lib::set_int_range(0, n as int));
    proof {
        vstd::set_lib::lemma_int_range(0, n as int);
    }
    assert(waves_view(waves@) =~= seq![]);
    loop
        invariant
            n == deps@.len(),
            n == units@.len(),
            remaining@.len() == n,
            dsets == dep_sets(deps@),
            forall|i: int, k: int| 0 <= i < deps@.len() && 0 <= k < deps@[i]@.len() ==> (#[trigger] deps@[i]@[k]) < deps@.len(),
            flagged(remaining@).finite(),
            plan_waves(dsets, vstd::set_lib::set_int_range(0, n as int), n as int)
                == prepend_waves(waves_view(waves@), plan_waves(dsets, flagged(remaining@), n as int)),
        decreases flagged(remaining@).len(),
    {
        let ghost rem = flagged(remaining@);
        let ghost w = ready_set(dsets, rem);
        let mut any = false;
        let mut wave: Vec<usize> = Vec::new();
        for i in 0..n
            invariant
                n == deps@.len(),
                remaining@.len() == n,
                rem == flagged(remaining@),
                dsets == dep_sets(deps@),
                w == ready_set(dsets, rem),
                forall|i: int, k: int| 0 <= i < deps@.len() && 0 <= k < deps@[i]@.len() ==> (#[trigger] deps@[i]@[k]) < deps@.len(),
                wave@.map_values(|x: usize| x as int) == ascending(i as int, w),
                any == exists|j: int| 0 <= j < i && remaining@[j],
        {
            if remaining[i] {
                any = true;
            }
            let clear = remaining[i] && deps_clear(&deps[i], &remaining);
            assert(dsets[i as int] == index_set(deps@[i as int]@));
            assert(clear == w.contains(i as int)) by {
                if remaining@[i as int] {
                    assert((forall|p: int| #[trigger] index_set(deps@[i as int]@).contains(p) ==> !remaining@[p])
                        <==> (forall|p: int| #[trigger] dsets[i as int].contains(p) ==> !rem.contains(p))) by {
                        assert forall|p: int| #[trigger] dsets[i as int].contains(p) implies 0 <= p < n by {
                            let k = choose|k: int| 0 <= k < deps@[i as int]@.len() && deps@[i as int]@[k] as int == p;
                            assert(deps@[i as int]@[k] < n);
                        }
                    }
                }
            }
            let ghost before = wave@;
            if clear {
                wave.push(i);
                assert(wave@.map_values(|x: usize| x as int) =~= before.map_values(|x: usize| x as int).push(i as int));
            }
        }
        assert(rem.len() == 0 <==> !any) by {
            if any {
                let j = choose|j: int| 0 <= j < n && remaining@[j];
                assert(rem.contains(j));
            } else {
                assert(rem =~= Set::empty());
            }
        }
        if !any {
            assert(waves_view(waves@) + seq![] =~= waves_view(waves@));
            return Ok(waves);
        }
        proof {
            lemma_ascending(n as int, w);
        }
        if wave.len() == 0 {
            assert(w =~= Set::empty()) by {
                assert forall|i: int| !w.contains(i) by {
                    if w.contains(i) {
                        assert(ascending(n as int, w).contains(i));
                    }
                }
            }
            let mut msg = String::new();
            crate::text::push_str(&mut msg, "cyclic C++ module imports involving: ");
            let ghost srcs = units@.map_values(|u: crate::language::CompileUnit| u.source@);
            let mut first = true;
            let ghost mut listed: Seq<int> = seq![];
            let ghost head = msg@;
            for i in 0..n
                invariant
                    n == units@.len(),
                    remaining@.len() == n,
                    rem == flagged(remaining@),
                    srcs == units@.map_values(|u: crate::language::CompileUnit| u.source@),
                    listed == ascending(i as int, rem),
                    first == (listed.len() == 0),
                    msg@ == head + join_with(listed.map_values(|k: int| srcs[k]), ", "@),
            {
                if remaining[i] {
                    let ghost old_listed = listed;
                    if !first {
                        crate::text::push_str(&mut msg, ", ");
                    }
                    crate::text::push_str(&mut msg, units[i].source.as_str());
                    first = false;
                    proof {
                        listed = listed.push(i as int);
                        assert(listed.map_values(|k: int| srcs[k]).drop_last() =~= old_listed.map_values(|k: int| srcs[k]));
                    }
                }
            }
            return Err(crate::error::CbldError::LayoutViolation(msg));
        }
        assert forall|k: int| 0 <= k < wave@.len() implies (#[trigger] wave@[k]) < n && w.contains(wave@[k] as int) by {
            assert(ascending(n as int, w)[k] == wave@[k] as int);
        }
        proof {
            let x0 = wave@[0] as int;
            assert(w.contains(x0));
            assert(w.subset_of(rem));
            vstd::set_lib::lemma_len_subset(w, rem);
            if w.len() == 0 {
                assert(w =~= Set::empty());
            }
            lemma_ready_shrinks(dsets, rem);
        }
        let ghost rest = rem.difference(w);
        let ghost start = remaining@;
        for j in 0..wave.len()
            invariant
                remaining@.len() == n,
                start.len() == n,
                forall|k: int| 0 <= k < wave@.len() ==> (#[trigger] wave@[k]) < n,
                forall|i: int| 0 <= i < n ==> #[trigger] remaining@[i] == (start[i] && !wave@.take(j as int).contains(i as usize)),
        {
            let x = wave[j];
            let ghost prev = remaining@;
            remaining.set(x, false);
            assert forall|i: int| 0 <= i < n implies #[trigger] remaining@[i] == (start[i] && !wave@.take(j + 1).contains(i as usize)) by {
                let t = wave@.take(j as int);
                assert(wave@.take(j + 1) =~= t.push(x));
                assert(prev[i] == (start[i] && !t.contains(i as usize)));
                if i == x as int {
                    assert(t.push(x)[t.len() as int] == x);
                } else {
                    assert(t.push(x).contains(i as usize) ==> t.contains(i as usize)) by {
                        if t.push(x).contains(i as usize) {
                            let k = choose|k: int| 0 <= k < t.len() + 1 && t.push(x)[k] == i as usize;
                            assert(k < t.len());
                            assert(t[k] == i as usize);
                        }
                    }
                    assert(t.contains(i as usize) ==> t.push(x).contains(i as usize)) by {
                        if t.contains(i as usize) {
                            let k = choose|k: int| 0 <= k < t.len() && t[k] == i as usize;
                            assert(t.push(x)[k] == i as usize);
                        }
                    }
                }
            }
        }
        assert(wave@.take(wave@.len() as int) =~= wave@);
        assert(flagged(remaining@) =~= rest) by {
            assert forall|x: int| 0 <= x < n implies (w.contains(x) <==> wave@.contains(x as usize)) by {
                if w.contains(x) {
                    assert(ascending(n as int, w).contains(x));
                    let k = choose|k: int| 0 <= k < ascending(n as int, w).len() && ascending(n as int, w)[k] == x;
                    assert(wave@[k] as int == x);
                }
                if wave@.contains(x as usize) {
                    let k = choose|k: int| 0 <= k < wave@.len() && wave@[k] == x as usize;
                    assert(w.contains(wave@[k] as int));
                }
            }
            assert(w.subset_of(rem));
        }
        let ghost prev_view = waves_view(waves@);
        waves.push(wave);
        assert(waves_view(waves@) =~= prev_view.push(ascending(n as int, w)));
        assert(plan_waves(dsets, rem, n as int) == prepend_waves(seq![ascending(n as int, w)], plan_waves(dsets, rest, n as int)));
        assert(prev_view + seq![ascending(n as int, w)] =~= waves_view(waves@));
        proof {
            match plan_waves(dsets, rest, n as int) {
                Ok(ws) => {
                    assert(prev_view + (seq![ascending(n as int, w)] + ws) =~= waves_view(waves@) + ws);
                },
                Err(_) => {},
            }
        }
    }
}


// ---------------------------------------------------------------------------
// Planning a package's module graph.
// ---------------------------------------------------------------------------

/// Topological compilation waves. Every source index occurs exactly once.
#[derive(Debug, Default)]
pub struct ModuleGraph {
    pub has_modules: bool,
    pub waves: Vec<Vec<usize>>,
    /// Directories that the module interface files (BMIs) are written to;
    /// they must exist before the producers are compiled.
    pub bmi_dirs: Vec<String>,
}

/// The declaration and imports of one source, as plain values.
pub type InfoView = (DeclView, Seq<Seq<char>>);

/// What a unit declares and imports; only C++ units are read.
pub open spec fn unit_info(u: CompileUnit, text: Option<String>) -> InfoView {
    if u.language == Language::Cpp {
        match text {
            Some(t) => source_info_spec(t@),
            None => (None, seq![]),
        }
    } else {
        (None, seq![])
    }
}

/// [`unit_info`] of every unit.
pub open spec fn infos_of(units: Seq<CompileUnit>, texts: Seq<Option<String>>) -> Seq<InfoView> {
    Seq::new(units.len(), |i: int| unit_info(units[i], texts[i]))
}

/// A module interface source without a module declaration.
pub open spec fn lacks_declaration(u: CompileUnit, info: InfoView) -> bool {
    u.language == Language::Cpp && is_module_path(u.source@) && info.0 is None
}

/// Whether a unit takes part in modules at all.
pub open spec fn uses_modules(u: CompileUnit, info: InfoView) -> bool {
    u.language == Language::Cpp && (is_module_path(u.source@) || info.0 is Some || info.1.len() > 0)
}

/// The module a unit exports, if it is an interface unit.
pub open spec fn interface_name(info: InfoView) -> Option<Seq<char>> {
    match info.0 {
        Some((DeclarationKind::Interface, n)) => Some(n),
        _ => None,
    }
}

/// Unit `j` exports a module that an earlier unit exports too.
pub open spec fn duplicate_at(infos: Seq<InfoView>, j: int) -> bool {
    interface_name(infos[j]) is Some && exists|i: int| 0 <= i < j && interface_name(infos[i]) == interface_name(infos[j])
}

/// The unit that exports module `name`, if any.
pub open spec fn producer_of(infos: Seq<InfoView>, name: Seq<char>) -> Option<int> {
    if exists|i: int| 0 <= i < infos.len() && interface_name(infos[i]) == Some(name) {
        Some(choose|i: int| 0 <= i < infos.len() && interface_name(infos[i]) == Some(name))
    } else {
        None
    }
}

/// The modules a unit consumes: its imports, and for an implementation
/// unit the primary interface it implements.
pub open spec fn consumed(info: InfoView) -> Seq<Seq<char>> {
    info.1 + match info.0 {
        Some((DeclarationKind::Implementation, n)) => seq![primary_name(n)],
        _ => seq![],
    }
}

/// An interface unit that imports its own module.
pub open spec fn imports_itself(info: InfoView) -> bool {
    match interface_name(info) {
        Some(n) => consumed(info).contains(n),
        None => false,
    }
}

/// The units of the package that unit `i` needs compiled first.
pub open spec fn unit_deps(infos: Seq<InfoView>, i: int) -> Set<int> {
    Set::new(|p: int| exists|k: int| 0 <= k < consumed(infos[i]).len() && producer_of(infos, #[trigger] consumed(infos[i])[k]) == Some(p))
}

/// A module name made safe for a file name.
pub open spec fn sanitize_spec(name: Seq<char>) -> Seq<char> {
    name.map_values(|c: char| if is_ascii_alnum(c) || c == '_' || c == '-' { c } else { '_' })
}

/// The directory a unit's module interface file goes to.
pub open spec fn bmi_dir(u: CompileUnit) -> Seq<char> {
    join_spec(
        match parent_spec(u.object@) {
            Some(p) => p,
            None => seq!['.'],
        },
        "modules"@,
    )
}

/// The module interface file of module `name` exported by unit `u`.
pub open spec fn bmi_path(u: CompileUnit, name: Seq<char>) -> Seq<char> {
    join_spec(bmi_dir(u), sanitize_spec(name) + ".pcm"@)
}

/// The flag that makes an interface unit write its module file.
pub open spec fn output_args(units: Seq<CompileUnit>, infos: Seq<InfoView>, i: int) -> Seq<Seq<char>> {
    match interface_name(infos[i]) {
        Some(n) => seq!["-fmodule-output="@ + bmi_path(units[i], n)],
        None => seq![],
    }
}

/// The flag that hands producer `p`'s module file to a consumer.
pub open spec fn file_arg(units: Seq<CompileUnit>, infos: Seq<InfoView>, p: int) -> Seq<char> {
    match interface_name(infos[p]) {
        Some(n) => "-fmodule-file="@ + n + "="@ + bmi_path(units[p], n),
        None => seq![],
    }
}

/// The flags the planner adds to unit `i`.
pub open spec fn module_args(units: Seq<CompileUnit>, infos: Seq<InfoView>, i: int) -> Seq<Seq<char>> {
    output_args(units, infos, i) + ascending(units.len() as int, unit_deps(infos, i)).map_values(
        |p: int| file_arg(units, infos, p),
    )
}

/// The first index from `i` below `n` where `p` holds.
pub open spec fn find_from(p: spec_fn(int) -> bool, i: int, n: int) -> Option<int>
    decreases n - i,
{
    if i >= n {
        None
    } else if p(i) {
        Some(i)
    } else {
        find_from(p, i + 1, n)
    }
}

pub open spec fn missing_declaration_message(source: Seq<char>) -> Seq<char> {
    "module source '"@ + source + "' has no module declaration"@
}

pub open spec fn duplicate_message(name: Seq<char>, first: Seq<char>, second: Seq<char>) -> Seq<char> {
    "duplicate C++ module producer '"@ + name + "' in '"@ + first + "' and '"@ + second + "'"@
}

pub open spec fn self_import_message(name: Seq<char>, source: Seq<char>) -> Seq<char> {
    "C++ module '"@ + name + "' imports itself in '"@ + source + "'"@
}

/// The sources of all units.
pub open spec fn sources_of(units: Seq<CompileUnit>) -> Seq<Seq<char>> {
    units.map_values(|u: CompileUnit| u.source@)
}

/// The dependency sets of all units.
pub open spec fn all_unit_deps(infos: Seq<InfoView>) -> Seq<Set<int>> {
    Seq::new(infos.len(), |i: int| unit_deps(infos, i))
}

/// The first error among the checks that come before the flags are added.
pub open spec fn declaration_error(units: Seq<CompileUnit>, infos: Seq<InfoView>) -> Option<Seq<char>> {
    let n = units.len() as int;
    match find_from(|i: int| lacks_declaration(units[i], infos[i]), 0, n) {
        Some(i) => Some(missing_declaration_message(units[i].source@)),
        None => if !(exists|i: int| 0 <= i < n && uses_modules(units[i], infos[i])) {
            None
        } else {
            match find_from(|j: int| duplicate_at(infos, j), 0, n) {
                Some(j) => {
                    let i = choose|i: int| 0 <= i < j && interface_name(infos[i]) == interface_name(infos[j]);
                    Some(duplicate_message(interface_name(infos[j])->Some_0, units[i].source@, units[j].source@))
                },
                None => match find_from(|i: int| imports_itself(infos[i]), 0, n) {
                    Some(i) => Some(self_import_message(interface_name(infos[i])->Some_0, units[i].source@)),
                    None => None,
                },
            }
        },
    }
}

/// Whether the planner adds module flags to the units.
pub open spec fn adds_flags(units: Seq<CompileUnit>, infos: Seq<InfoView>) -> bool {
    &&& declaration_error(units, infos) is None
    &&& exists|i: int| 0 <= i < units.len() && uses_modules(units[i], infos[i])
}

/// The outcome of planning: whether modules are in use and the waves, or
/// the message of the layout violation.
pub open spec fn prepare_outcome(units: Seq<CompileUnit>, texts: Seq<Option<String>>) -> core::result::Result<(bool, Seq<Seq<int>>), Seq<char>> {
    let n = units.len() as int;
    let infos = infos_of(units, texts);
    match declaration_error(units, infos) {
        Some(m) => Err(m),
        None => if !adds_flags(units, infos) {
            Ok((false, seq![Seq::new(n as nat, |i: int| i)]))
        } else {
            match plan_waves(all_unit_deps(infos), vstd::set_lib::set_int_range(0, n), n) {
                Ok(ws) => Ok((true, ws)),
                Err(stuck) => Err(cycle_message(sources_of(units), ascending(n, stuck))),
            }
        },
    }
}

/// The module-file directories, one per interface unit in index order.
pub open spec fn bmi_dirs_spec(units: Seq<CompileUnit>, infos: Seq<InfoView>) -> Seq<Seq<char>> {
    ascending(units.len() as int, Set::new(|i: int| interface_name(infos[i]) is Some)).map_values(|i: int| bmi_dir(units[i]))
}

/// Exec form of [`sanitize_spec`].
pub fn sanitize_module_name(name: &[char]) -> (r: Vec<char>)
    ensures
        r@ == sanitize_spec(name@),
{
    let mut r: Vec<char> = Vec::new();
    for i in 0..name.len()
        invariant
            r@ == sanitize_spec(name@.take(i as int)),
    {
        let ch = name[i];
        r.push(if ascii_alnum(ch) || ch == '_' || ch == '-' { ch } else { '_' });
        assert(sanitize_spec(name@.take(i + 1)) =~= sanitize_spec(name@.take(i as int)).push(
            if is_ascii_alnum(ch) || ch == '_' || ch == '-' { ch } else { '_' },
        ));
    }
    assert(name@.take(name@.len() as int) =~= name@);
    r
}

/// Exec form of [`bmi_dir`].
fn module_dir(object: &str) -> (r: String)
    ensures
        r@ == join_spec(
            match parent_spec(object@) {
                Some(p) => p,
                None => seq!['.'],
            },
            "modules"@,
        ),
{
    let base = match parent(object) {
        Some(p) => p,
        None => {
            let mut d = String::new();
            d.push('.');
            assert(d@ =~= seq!['.']);
            d
        },
    };
    join(base.as_str(), "modules")
}

/// Exec form of [`bmi_path`].
fn module_file(object: &str, name: &[char]) -> (r: String)
    ensures
        r@ == join_spec(
            join_spec(
                match parent_spec(object@) {
                    Some(p) => p,
                    None => seq!['.'],
                },
                "modules"@,
            ),
            sanitize_spec(name@) + ".pcm"@,
        ),
{
    let dir = module_dir(object);
    let clean = sanitize_module_name(name);
    let mut file = string_from(&clean);
    push_str(&mut file, ".pcm");
    join(dir.as_str(), file.as_str())
}


pub proof fn lemma_find_from(p: spec_fn(int) -> bool, i: int, n: int)
    ensures
        find_from(p, i, n) matches Some(j) ==> i <= j < n && p(j) && forall|k: int| i <= k < j ==> !#[trigger] p(k),
        find_from(p, i, n) is None ==> forall|k: int| i <= k < n ==> !#[trigger] p(k),
    decreases n - i,
{
    if i < n && !p(i) {
        lemma_find_from(p, i + 1, n);
    }
}

/// Characters of a declaration.
pub type DeclChars = Option<(DeclarationKind, Vec<char>)>;

/// Whether the exec declarations and imports describe `infos`.
pub open spec fn holds_infos(decls: Seq<DeclChars>, imps: Seq<Vec<Vec<char>>>, infos: Seq<InfoView>) -> bool {
    &&& decls.len() == infos.len()
    &&& imps.len() == infos.len()
    &&& forall|i: int| 0 <= i < infos.len() ==> decl_view(#[trigger] decls[i]) == infos[i].0
    &&& forall|i: int| 0 <= i < infos.len() ==> views_of(#[trigger] imps[i]@) == infos[i].1
}

/// Parse the declarations of every C++ unit; fails on a module interface
/// source that declares no module.
fn gather(units: &Vec<CompileUnit>, texts: &Vec<Option<String>>) -> (r: Result<(Vec<DeclChars>, Vec<Vec<Vec<char>>>, bool)>)
    requires
        units@.len() == texts@.len(),
        forall|i: int| 0 <= i < units@.len() && (#[trigger] units@[i]).language == Language::Cpp ==> texts@[i] is Some,
    ensures
        ({
            let infos = infos_of(units@, texts@);
            let n = units@.len() as int;
            match r {
                Ok((decls, imps, any_modules)) => holds_infos(decls@, imps@, infos)
                    && find_from(|i: int| lacks_declaration(units@[i], infos[i]), 0, n) is None
                    && any_modules == exists|i: int| 0 <= i < n && uses_modules(units@[i], infos[i]),
                Err(e) => find_from(|i: int| lacks_declaration(units@[i], infos[i]), 0, n) matches Some(i)
                    && e matches CbldError::LayoutViolation(m) && m@ == missing_declaration_message(units@[i].source@),
            }
        }),
{
    let ghost infos = infos_of(units@, texts@);
    let ghost lacks = |i: int| lacks_declaration(units@[i], infos[i]);
    let n = units.len();
    let mut decls: Vec<DeclChars> = Vec::new();
    let mut imps: Vec<Vec<Vec<char>>> = Vec::new();
    let mut has = false;
    for i in 0..n
        invariant
            n == units@.len(),
            n == texts@.len(),
            infos == infos_of(units@, texts@),
            lacks == (|i: int| lacks_declaration(units@[i], infos[i])),
            forall|i: int| 0 <= i < units@.len() && (#[trigger] units@[i]).language == Language::Cpp ==> texts@[i] is Some,
            holds_infos(decls@, imps@, infos.take(i as int)),
            find_from(lacks, i as int, n as int) == find_from(lacks, 0, n as int),
            has == exists|q: int| 0 <= q < i && uses_modules(units@[q], infos[q]),
    {
        let ghost info = infos[i as int];
        if units[i].language == Language::Cpp {
            let text = match &texts[i] {
                Some(t) => t,
                None => {
                    assert(false);
                    return Err(CbldError::Lint);
                },
            };
            let (decl, imports) = scan_declarations(text.as_str());
            let is_module_extension = Language::is_module_source(units[i].source.as_str());
            if is_module_extension && decl.is_none() {
                let mut m = String::new();
                push_str(&mut m, "module source '");
                push_str(&mut m, units[i].source.as_str());
                push_str(&mut m, "' has no module declaration");
                assert(lacks(i as int));
                return Err(CbldError::LayoutViolation(m));
            }
            if is_module_extension || decl.is_some() || imports.len() > 0 {
                has = true;
            }
            decls.push(decl);
            imps.push(imports);
        } else {
            decls.push(None);
            imps.push(Vec::new());
            assert(views_of(imps@[i as int]@) =~= seq![]);
        }
        assert(!lacks(i as int));
        assert(infos.take(i + 1) =~= infos.take(i as int).push(info));
        assert(has == exists|q: int| 0 <= q < i + 1 && uses_modules(units@[q], infos[q])) by {
            if uses_modules(units@[i as int], infos[i as int]) {
                assert(has);
            }
        }
    }
    assert(infos.take(n as int) =~= infos);
    Ok((decls, imps, has))
}


/// Names and indices of the interface units below `upto`, in index order.
pub open spec fn holds_producers(pnames: Seq<Vec<char>>, pidx: Seq<usize>, infos: Seq<InfoView>, upto: int) -> bool {
    &&& pnames.len() == pidx.len()
    &&& forall|k: int| 0 <= k < pidx.len() ==> 0 <= #[trigger] pidx[k] < upto
        && interface_name(infos[pidx[k] as int]) == Some(pnames[k]@)
    &&& forall|i: int| 0 <= i < upto && #[trigger] interface_name(infos[i]) is Some
        ==> exists|k: int| 0 <= k < pidx.len() && pidx[k] == i
}

/// Position of `name` in `names`, if present.
fn find_name(names: &Vec<Vec<char>>, name: &[char]) -> (r: Option<usize>)
    ensures
        r matches Some(k) ==> k < names@.len() && names@[k as int]@ == name@,
        r is None ==> forall|k: int| 0 <= k < names@.len() ==> (#[trigger] names@[k])@ != name@,
{
    for k in 0..names.len()
        invariant
            forall|q: int| 0 <= q < k ==> (#[trigger] names@[q])@ != name@,
    {
        if chars_eq(names[k].as_slice(), name) {
            return Some(k);
        }
    }
    None
}

/// The interface units and their module names; fails when two units
/// export the same module.
fn collect_producers(units: &Vec<CompileUnit>, decls: &Vec<DeclChars>, Ghost(infos): Ghost<Seq<InfoView>>) -> (r: Result<(Vec<Vec<char>>, Vec<usize>)>)
    requires
        decls@.len() == units@.len(),
        infos.len() == units@.len(),
        forall|i: int| 0 <= i < infos.len() ==> decl_view(#[trigger] decls@[i]) == infos[i].0,
    ensures
        match r {
            Ok((pnames, pidx)) => find_from(|j: int| duplicate_at(infos, j), 0, infos.len() as int) is None
                && holds_producers(pnames@, pidx@, infos, infos.len() as int),
            Err(e) => find_from(|j: int| duplicate_at(infos, j), 0, infos.len() as int) matches Some(j) && ({
                let i = choose|i: int| 0 <= i < j && interface_name(infos[i]) == interface_name(infos[j]);
                e matches CbldError::LayoutViolation(m)
                    && m@ == duplicate_message(interface_name(infos[j])->Some_0, units@[i].source@, units@[j].source@)
            }),
        },
{
    let ghost dup = |j: int| duplicate_at(infos, j);
    let n = units.len();
    let mut pnames: Vec<Vec<char>> = Vec::new();
    let mut pidx: Vec<usize> = Vec::new();
    for j in 0..n
        invariant
            n == units@.len(),
            decls@.len() == n,
            infos.len() == n,
            dup == (|j: int| duplicate_at(infos, j)),
            forall|i: int| 0 <= i < infos.len() ==> decl_view(#[trigger] decls@[i]) == infos[i].0,
            holds_producers(pnames@, pidx@, infos, j as int),
            find_from(dup, j as int, n as int) == find_from(dup, 0, n as int),
            forall|q: int| 0 <= q < j ==> !#[trigger] dup(q),
    {
        assert(decl_view(decls@[j as int]) == infos[j as int].0);
        match &decls[j] {
            Some((DeclarationKind::Interface, nm)) => {
                assert(interface_name(infos[j as int]) == Some(nm@));
                match find_name(&pnames, nm.as_slice()) {
                    Some(k) => {
                        let prev = pidx[k];
                        assert(dup(j as int));
                        proof {
                            let c = choose|i: int| 0 <= i < j && interface_name(infos[i]) == interface_name(infos[j as int]);
                            if c != prev as int {
                                if c < prev {
                                    assert(dup(prev as int));
                                } else {
                                    assert(dup(c));
                                }
                            }
                        }
                        let mut m = String::new();
                        push_str(&mut m, "duplicate C++ module producer '");
                        let name = string_from(nm.as_slice());
                        push_str(&mut m, name.as_str());
                        push_str(&mut m, "' in '");
                        push_str(&mut m, units[prev].source.as_str());
                        push_str(&mut m, "' and '");
                        push_str(&mut m, units[j].source.as_str());
                        push_str(&mut m, "'");
                        return Err(CbldError::LayoutViolation(m));
                    },
                    None => {
                        assert(!dup(j as int)) by {
                            if dup(j as int) {
                                let i = choose|i: int| 0 <= i < j && interface_name(infos[i]) == interface_name(infos[j as int]);
                                let k = choose|k: int| 0 <= k < pidx@.len() && pidx@[k] == i;
                                assert(pnames@[k]@ == nm@);
                            }
                        }
                        let ghost old_names = pnames@;
                        let ghost old_idx = pidx@;
                        pnames.push(sub_chars(nm.as_slice(), 0, nm.len()));
                        pidx.push(j);
                        assert(nm@.subrange(0, nm@.len() as int) =~= nm@);
                        assert forall|i: int| 0 <= i < j + 1 && #[trigger] interface_name(infos[i]) is Some
                            implies exists|k: int| 0 <= k < pidx@.len() && pidx@[k] == i by {
                            if i < j {
                                let k = choose|k: int| 0 <= k < old_idx.len() && old_idx[k] == i;
                                assert(pidx@[k] == i);
                            } else {
                                assert(pidx@[old_idx.len() as int] == i);
                            }
                        }
                    },
                }
            },
            _ => {
                assert(interface_name(infos[j as int]) is None);
                assert(!dup(j as int));
            },
        }
    }
    proof {
        lemma_find_from(dup, n as int, n as int);
    }
    Ok((pnames, pidx))
}


/// No two units export the same module.
pub open spec fn unique_producers(infos: Seq<InfoView>) -> bool {
    forall|j: int| 0 <= j < infos.len() ==> !#[trigger] duplicate_at(infos, j)
}

pub proof fn lemma_producer_of(infos: Seq<InfoView>, name: Seq<char>, i: int)
    requires
        unique_producers(infos),
        0 <= i < infos.len(),
        interface_name(infos[i]) == Some(name),
    ensures
        producer_of(infos, name) == Some(i),
{
    let c = choose|c: int| 0 <= c < infos.len() && interface_name(infos[c]) == Some(name);
    if c < i {
        assert(duplicate_at(infos, i));
    } else if i < c {
        assert(duplicate_at(infos, c));
    }
}

/// The producer of `name`, looked up in the producer table.
fn lookup(pnames: &Vec<Vec<char>>, pidx: &Vec<usize>, name: &[char], Ghost(infos): Ghost<Seq<InfoView>>) -> (r: Option<usize>)
    requires
        holds_producers(pnames@, pidx@, infos, infos.len() as int),
        unique_producers(infos),
    ensures
        r matches Some(p) ==> producer_of(infos, name@) == Some(p as int) && p < infos.len(),
        r is None ==> producer_of(infos, name@) is None,
{
    match find_name(pnames, name) {
        Some(k) => {
            let p = pidx[k];
            proof {
                lemma_producer_of(infos, name@, p as int);
            }
            Some(p)
        },
        None => {
            assert(producer_of(infos, name@) is None) by {
                if exists|i: int| 0 <= i < infos.len() && interface_name(infos[i]) == Some(name@) {
                    let i = choose|i: int| 0 <= i < infos.len() && interface_name(infos[i]) == Some(name@);
                    let k = choose|k: int| 0 <= k < pidx@.len() && pidx@[k] == i;
                    assert(pnames@[k]@ == name@);
                }
            }
            None
        },
    }
}

/// Unit `q` is the producer of one of the first `upto` modules unit `i` consumes.
pub open spec fn marked_by(infos: Seq<InfoView>, i: int, upto: int, q: int) -> bool {
    exists|k: int| 0 <= k < upto && producer_of(infos, #[trigger] consumed(infos[i])[k]) == Some(q)
}

/// Mark the producer of `name`; `true` when that producer is unit `i` itself.
fn mark(
    pnames: &Vec<Vec<char>>,
    pidx: &Vec<usize>,
    name: &[char],
    i: usize,
    marks: &mut Vec<bool>,
    Ghost(infos): Ghost<Seq<InfoView>>,
) -> (r: bool)
    requires
        holds_producers(pnames@, pidx@, infos, infos.len() as int),
        unique_producers(infos),
        old(marks)@.len() == infos.len(),
    ensures
        r == (producer_of(infos, name@) == Some(i as int)),
        final(marks)@.len() == infos.len(),
        !r ==> forall|q: int| 0 <= q < infos.len() ==> #[trigger] final(marks)@[q] == (old(marks)@[q] || producer_of(infos, name@) == Some(q)),
{
    match lookup(pnames, pidx, name, Ghost(infos)) {
        Some(p) => {
            if p == i {
                return true;
            }
            marks.set(p, true);
            false
        },
        None => false,
    }
}

/// The producers unit `i` depends on, in increasing order; `Err` when the
/// unit imports its own module.
fn dependencies_of(
    i: usize,
    decl: &DeclChars,
    imports: &Vec<Vec<char>>,
    pnames: &Vec<Vec<char>>,
    pidx: &Vec<usize>,
    marks: &mut Vec<bool>,
    Ghost(infos): Ghost<Seq<InfoView>>,
) -> (r: core::result::Result<Vec<usize>, ()>)
    requires
        0 <= i < infos.len(),
        decl_view(*decl) == infos[i as int].0,
        views_of(imports@) == infos[i as int].1,
        holds_producers(pnames@, pidx@, infos, infos.len() as int),
        unique_producers(infos),
        old(marks)@.len() == infos.len(),
        forall|q: int| 0 <= q < infos.len() ==> !(#[trigger] old(marks)@[q]),
    ensures
        final(marks)@.len() == infos.len(),
        r is Ok ==> forall|q: int| 0 <= q < infos.len() ==> !(#[trigger] final(marks)@[q]),
        r is Err <==> imports_itself(infos[i as int]),
        r matches Ok(d) ==> d@.map_values(|x: usize| x as int) == ascending(infos.len() as int, unit_deps(infos, i as int)),
{
    let ghost info = infos[i as int];
    let ghost cons = consumed(info);
    let n = marks.len();
    let ghost selfmap = exists|k: int| 0 <= k < cons.len() && producer_of(infos, #[trigger] cons[k]) == Some(i as int);
    assert(selfmap == imports_itself(info)) by {
        if selfmap {
            let k = choose|k: int| 0 <= k < cons.len() && producer_of(infos, #[trigger] cons[k]) == Some(i as int);
            let c = choose|c: int| 0 <= c < infos.len() && interface_name(infos[c]) == Some(cons[k]);
            assert(cons.contains(cons[k]));
        }
        if imports_itself(info) {
            let nm = interface_name(info)->Some_0;
            let k = choose|k: int| 0 <= k < cons.len() && cons[k] == nm;
            lemma_producer_of(infos, nm, i as int);
            assert(producer_of(infos, cons[k]) == Some(i as int));
        }
    }
    for k in 0..imports.len()
        invariant
            n == marks@.len(),
            n == infos.len(),
            info == infos[i as int],
            cons == consumed(info),
            selfmap == exists|k: int| 0 <= k < cons.len() && producer_of(infos, #[trigger] cons[k]) == Some(i as int),
            views_of(imports@) == info.1,
            holds_producers(pnames@, pidx@, infos, infos.len() as int),
            unique_producers(infos),
            forall|q: int| 0 <= q < n ==> #[trigger] marks@[q] == marked_by(infos, i as int, k as int, q),
            forall|q: int| 0 <= q < k ==> producer_of(infos, #[trigger] cons[q]) != Some(i as int),
    {
        assert(cons[k as int] == imports@[k as int]@);
        if mark(pnames, pidx, imports[k].as_slice(), i, marks, Ghost(infos)) {
            assert(selfmap);
            return Err(());
        }
        assert forall|q: int| 0 <= q < n implies #[trigger] marks@[q] == marked_by(infos, i as int, k + 1, q) by {
            if marked_by(infos, i as int, k + 1, q) && !marked_by(infos, i as int, k as int, q) {
                let kk = choose|kk: int| 0 <= kk < k + 1 && producer_of(infos, #[trigger] cons[kk]) == Some(q);
                assert(kk == k);
            }
        }
    }
    let ghost base = imports@.len() as int;
    match decl {
        Some((DeclarationKind::Implementation, nm)) => {
            let prim = primary(nm.as_slice());
            assert(cons[base] == prim@);
            if mark(pnames, pidx, prim.as_slice(), i, marks, Ghost(infos)) {
                assert(selfmap);
                return Err(());
            }
            assert forall|q: int| 0 <= q < n implies #[trigger] marks@[q] == marked_by(infos, i as int, base + 1, q) by {
                if marked_by(infos, i as int, base + 1, q) && !marked_by(infos, i as int, base, q) {
                    let kk = choose|kk: int| 0 <= kk < base + 1 && producer_of(infos, #[trigger] cons[kk]) == Some(q);
                    assert(kk == base);
                }
            }
        },
        _ => {},
    }
    assert(!selfmap);
    let ghost deps = unit_deps(infos, i as int);
    assert forall|q: int| 0 <= q < n implies #[trigger] marks@[q] == deps.contains(q) by {
        assert(marked_by(infos, i as int, cons.len() as int, q) == deps.contains(q));
    }
    let mut list: Vec<usize> = Vec::new();
    for p in 0..n
        invariant
            n == marks@.len(),
            n == infos.len(),
            deps == unit_deps(infos, i as int),
            forall|q: int| p <= q < n ==> #[trigger] marks@[q] == deps.contains(q),
            forall|q: int| 0 <= q < p ==> !(#[trigger] marks@[q]),
            list@.map_values(|x: usize| x as int) == ascending(p as int, deps),
    {
        if marks[p] {
            let ghost before = list@;
            list.push(p);
            marks.set(p, false);
            assert(list@.map_values(|x: usize| x as int) =~= before.map_values(|x: usize| x as int).push(p as int));
        }
    }
    Ok(list)
}


/// The dependency lists of all units, in increasing order; fails on the
/// first interface unit that imports its own module.
fn all_dependencies(
    units: &Vec<CompileUnit>,
    decls: &Vec<DeclChars>,
    imps: &Vec<Vec<Vec<char>>>,
    pnames: &Vec<Vec<char>>,
    pidx: &Vec<usize>,
    Ghost(infos): Ghost<Seq<InfoView>>,
) -> (r: Result<Vec<Vec<usize>>>)
    requires
        infos.len() == units@.len(),
        holds_infos(decls@, imps@, infos),
        holds_producers(pnames@, pidx@, infos, infos.len() as int),
        unique_producers(infos),
    ensures
        match r {
            Ok(deps) => find_from(|i: int| imports_itself(infos[i]), 0, infos.len() as int) is None
                && deps@.len() == infos.len()
                && forall|i: int| 0 <= i < infos.len() ==> (#[trigger] deps@[i])@.map_values(|x: usize| x as int)
                    == ascending(infos.len() as int, unit_deps(infos, i)),
            Err(e) => find_from(|i: int| imports_itself(infos[i]), 0, infos.len() as int) matches Some(i)
                && e matches CbldError::LayoutViolation(m)
                && m@ == self_import_message(interface_name(infos[i])->Some_0, units@[i].source@),
        },
{
    let ghost selfp = |i: int| imports_itself(infos[i]);
    let n = units.len();
    let mut marks: Vec<bool> = Vec::new();
    for q in 0..n
        invariant
            marks@.len() == q,
            forall|j: int| 0 <= j < q ==> !(#[trigger] marks@[j]),
    {
        marks.push(false);
    }
    let mut deps: Vec<Vec<usize>> = Vec::new();
    for i in 0..n
        invariant
            n == units@.len(),
            n == infos.len(),
            selfp == (|i: int| imports_itself(infos[i])),
            holds_infos(decls@, imps@, infos),
            holds_producers(pnames@, pidx@, infos, infos.len() as int),
            unique_producers(infos),
            marks@.len() == n,
            forall|j: int| 0 <= j < n ==> !(#[trigger] marks@[j]),
            deps@.len() == i,
            forall|j: int| 0 <= j < i ==> (#[trigger] deps@[j])@.map_values(|x: usize| x as int)
                == ascending(infos.len() as int, unit_deps(infos, j)),
            find_from(selfp, i as int, n as int) == find_from(selfp, 0, n as int),
    {
        assert(decl_view(decls@[i as int]) == infos[i as int].0);
        assert(views_of(imps@[i as int]@) == infos[i as int].1);
        match dependencies_of(i, &decls[i], &imps[i], pnames, pidx, &mut marks, Ghost(infos)) {
            Ok(list) => {
                assert(!selfp(i as int));
                deps.push(list);
            },
            Err(()) => {
                assert(selfp(i as int));
                let mut m = String::new();
                push_str(&mut m, "C++ module '");
                match &decls[i] {
                    Some((DeclarationKind::Interface, nm)) => {
                        let name = string_from(nm.as_slice());
                        push_str(&mut m, name.as_str());
                    },
                    _ => {
                        assert(false);
                    },
                }
                push_str(&mut m, "' imports itself in '");
                push_str(&mut m, units[i].source.as_str());
                push_str(&mut m, "'");
                return Err(CbldError::LayoutViolation(m));
            },
        }
    }
    proof {
        lemma_find_from(selfp, n as int, n as int);
    }
    Ok(deps)
}

/// The interface name held in exec declarations.
fn interface_chars(decl: &DeclChars) -> (r: Option<&Vec<char>>)
    ensures
        match r {
            Some(nm) => interface_name((decl_view(*decl), seq![])) == Some(nm@),
            None => interface_name((decl_view(*decl), seq![])) is None,
        },
{
    match decl {
        Some((DeclarationKind::Interface, nm)) => Some(nm),
        _ => None,
    }
}

/// Add the module flags: `-fmodule-output=` to each interface unit, then
/// `-fmodule-file=name=path` for each producer a unit depends on.
fn add_module_flags(units: &mut Vec<CompileUnit>, decls: &Vec<DeclChars>, deps: &Vec<Vec<usize>>, Ghost(infos): Ghost<Seq<InfoView>>)
    requires
        infos.len() == old(units)@.len(),
        decls@.len() == infos.len(),
        forall|i: int| 0 <= i < infos.len() ==> decl_view(#[trigger] decls@[i]) == infos[i].0,
        deps@.len() == infos.len(),
        forall|i: int| 0 <= i < infos.len() ==> (#[trigger] deps@[i])@.map_values(|x: usize| x as int)
            == ascending(infos.len() as int, unit_deps(infos, i)),
    ensures
        final(units)@.len() == old(units)@.len(),
        forall|i: int| 0 <= i < old(units)@.len() ==> {
            &&& (#[trigger] final(units)@[i]).source == old(units)@[i].source
            &&& final(units)@[i].object == old(units)@[i].object
            &&& final(units)@[i].language == old(units)@[i].language
            &&& views(final(units)@[i].args@) == views(old(units)@[i].args@) + module_args(old(units)@, infos, i)
        },
{
    let ghost orig = units@;
    let n = units.len();
    for i in 0..n
        invariant
            n == units@.len(),
            n == orig.len(),
            infos.len() == n,
            decls@.len() == n,
            forall|i: int| 0 <= i < infos.len() ==> decl_view(#[trigger] decls@[i]) == infos[i].0,
            deps@.len() == n,
            forall|i: int| 0 <= i < infos.len() ==> (#[trigger] deps@[i])@.map_values(|x: usize| x as int)
                == ascending(infos.len() as int, unit_deps(infos, i)),
            forall|j: int| 0 <= j < n ==> {
                &&& (#[trigger] units@[j]).source == orig[j].source
                &&& units@[j].object == orig[j].object
                &&& units@[j].language == orig[j].language
            },
            forall|j: int| 0 <= j < n ==> views((#[trigger] units@[j]).args@) == views(orig[j].args@) + if j < i {
                module_args(orig, infos, j)
            } else {
                seq![]
            },
    {
        let ghost start = views(units@[i as int].args@);
        assert(start =~= views(orig[i as int].args@)) by {
            assert(views(orig[i as int].args@) + seq![] =~= views(orig[i as int].args@));
        }
        assert(decl_view(decls@[i as int]) == infos[i as int].0);
        match interface_chars(&decls[i]) {
            Some(nm) => {
                let path = module_file(units[i].object.as_str(), nm.as_slice());
                let mut arg = String::new();
                push_str(&mut arg, "-fmodule-output=");
                push_str(&mut arg, path.as_str());
                units[i].args.push(arg);
            },
            None => {},
        }
        assert(views(units@[i as int].args@) =~= start + output_args(orig, infos, i as int));
        let ghost mid = views(units@[i as int].args@);
        let ghost list = ascending(n as int, unit_deps(infos, i as int));
        let dl = deps[i].len();
        for k in 0..dl
            invariant
                n == units@.len(),
                n == orig.len(),
                infos.len() == n,
                i < n,
                decls@.len() == n,
                forall|i: int| 0 <= i < infos.len() ==> decl_view(#[trigger] decls@[i]) == infos[i].0,
                deps@.len() == n,
                dl == deps@[i as int]@.len(),
                deps@[i as int]@.map_values(|x: usize| x as int) == list,
                list == ascending(n as int, unit_deps(infos, i as int)),
                forall|j: int| 0 <= j < n ==> {
                    &&& (#[trigger] units@[j]).source == orig[j].source
                    &&& units@[j].object == orig[j].object
                    &&& units@[j].language == orig[j].language
                },
                forall|j: int| 0 <= j < n && j != i ==> views((#[trigger] units@[j]).args@) == views(orig[j].args@) + if j < i {
                    module_args(orig, infos, j)
                } else {
                    seq![]
                },
                views(units@[i as int].args@) == mid + list.take(k as int).map_values(|p: int| file_arg(orig, infos, p)),
        {
            proof {
                lemma_ascending(n as int, unit_deps(infos, i as int));
            }
            let p = deps[i][k];
            assert(list[k as int] == p as int);
            assert(p < n);
            assert(decl_view(decls@[p as int]) == infos[p as int].0);
            let mut arg = String::new();
            push_str(&mut arg, "-fmodule-file=");
            match interface_chars(&decls[p]) {
                Some(nm) => {
                    let name = string_from(nm.as_slice());
                    push_str(&mut arg, name.as_str());
                    push_str(&mut arg, "=");
                    let path = module_file(units[p].object.as_str(), nm.as_slice());
                    push_str(&mut arg, path.as_str());
                },
                None => {
                    arg = String::new();
                },
            }
            let ghost before = views(units@[i as int].args@);
            units[i].args.push(arg);
            assert(views(units@[i as int].args@) =~= before.push(file_arg(orig, infos, p as int)));
            assert(list.take(k + 1).map_values(|p: int| file_arg(orig, infos, p))
                =~= list.take(k as int).map_values(|p: int| file_arg(orig, infos, p)).push(file_arg(orig, infos, p as int)));
        }
        assert(list.take(dl as int) =~= list);
        assert(views(units@[i as int].args@) =~= views(orig[i as int].args@) + module_args(orig, infos, i as int));
    }
}


/// Parse module declarations, attach module-file flags, and produce the
/// dependency waves. `texts` holds the text of every C++ unit (other units
/// are not read).
pub fn prepare(units: &mut Vec<CompileUnit>, texts: &Vec<Option<String>>) -> (r: Result<ModuleGraph>)
    requires
        old(units)@.len() == texts@.len(),
        forall|i: int| 0 <= i < old(units)@.len() && (#[trigger] old(units)@[i]).language == Language::Cpp
            ==> texts@[i] is Some,
    ensures
        ({
            let infos = infos_of(old(units)@, texts@);
            &&& match prepare_outcome(old(units)@, texts@) {
                Ok((used, ws)) => r matches Ok(g) && g.has_modules == used && waves_view(g.waves@) == ws
                    && views(g.bmi_dirs@) == if used { bmi_dirs_spec(old(units)@, infos) } else { seq![] },
                Err(m) => r matches Err(CbldError::LayoutViolation(mm)) && mm@ == m,
            }
            &&& r matches Ok(g) ==> waves_respect_modules(old(units)@, texts@, waves_view(g.waves@))
            &&& final(units)@.len() == old(units)@.len()
            &&& forall|i: int| 0 <= i < old(units)@.len() ==> {
                &&& (#[trigger] final(units)@[i]).source == old(units)@[i].source
                &&& final(units)@[i].object == old(units)@[i].object
                &&& final(units)@[i].language == old(units)@[i].language
                &&& views(final(units)@[i].args@) == views(old(units)@[i].args@) + if adds_flags(old(units)@, infos) {
                    module_args(old(units)@, infos, i)
                } else {
                    seq![]
                }
            }
        }),
{
    proof {
        lemma_prepared_waves(units@, texts@);
    }
    let ghost orig = units@;
    let ghost infos = infos_of(units@, texts@);
    let n = units.len();
    let (decls, imps, any_modules) = match gather(units, texts) {
        Ok(g) => g,
        Err(e) => {
            assert forall|i: int| 0 <= i < orig.len() implies views((#[trigger] units@[i]).args@) == views(orig[i].args@) + seq![] by {
                assert(views(orig[i].args@) + seq![] =~= views(orig[i].args@));
            }
            return Err(e);
        },
    };
    assert forall|i: int| 0 <= i < orig.len() implies views((#[trigger] units@[i]).args@) == views(orig[i].args@) + seq![] by {
        assert(views(orig[i].args@) + seq![] =~= views(orig[i].args@));
    }
    if !any_modules {
        let mut all: Vec<usize> = Vec::new();
        for i in 0..n
            invariant
                all@.map_values(|x: usize| x as int) == Seq::new(i as nat, |q: int| q),
        {
            let ghost before = all@;
            all.push(i);
            assert(all@.map_values(|x: usize| x as int) =~= before.map_values(|x: usize| x as int).push(i as int));
            assert(all@.map_values(|x: usize| x as int) =~= Seq::new((i + 1) as nat, |q: int| q));
        }
        let mut waves: Vec<Vec<usize>> = Vec::new();
        waves.push(all);
        assert(waves_view(waves@) =~= seq![Seq::new(n as nat, |q: int| q)]);
        let g = ModuleGraph { has_modules: false, waves, bmi_dirs: Vec::new() };
        assert(views(g.bmi_dirs@) =~= seq![]);
        return Ok(g);
    }
    let (pnames, pidx) = match collect_producers(units, &decls, Ghost(infos)) {
        Ok(p) => p,
        Err(e) => return Err(e),
    };
    proof {
        let dp = |j: int| duplicate_at(infos, j);
        lemma_find_from(dp, 0, n as int);
        assert forall|j: int| 0 <= j < infos.len() implies !#[trigger] duplicate_at(infos, j) by {
            assert(!dp(j));
        }
    }
    assert(unique_producers(infos));
    let deps = match all_dependencies(units, &decls, &imps, &pnames, &pidx, Ghost(infos)) {
        Ok(d) => d,
        Err(e) => return Err(e),
    };
    let mut bmi_dirs: Vec<String> = Vec::new();
    let ghost ifaces = Set::new(|i: int| interface_name(infos[i]) is Some);
    for i in 0..n
        invariant
            n == units@.len(),
            units@ == orig,
            infos.len() == n,
            decls@.len() == n,
            forall|i: int| 0 <= i < infos.len() ==> decl_view(#[trigger] decls@[i]) == infos[i].0,
            ifaces == Set::new(|i: int| interface_name(infos[i]) is Some),
            views(bmi_dirs@) == ascending(i as int, ifaces).map_values(|q: int| bmi_dir(orig[q])),
    {
        assert(decl_view(decls@[i as int]) == infos[i as int].0);
        let ghost before = views(bmi_dirs@);
        if interface_chars(&decls[i]).is_some() {
            bmi_dirs.push(module_dir(units[i].object.as_str()));
            assert(views(bmi_dirs@) =~= before.push(bmi_dir(orig[i as int])));
            assert(ascending(i + 1, ifaces).map_values(|q: int| bmi_dir(orig[q]))
                =~= ascending(i as int, ifaces).map_values(|q: int| bmi_dir(orig[q])).push(bmi_dir(orig[i as int])));
        }
    }
    add_module_flags(units, &decls, &deps, Ghost(infos));
    proof {
        lemma_ascending(n as int, Set::new(|i: int| true));
    }
    assert forall|i: int, k: int| 0 <= i < deps@.len() && 0 <= k < deps@[i]@.len() implies (#[trigger] deps@[i]@[k]) < deps@.len() by {
        lemma_ascending(n as int, unit_deps(infos, i));
        assert(deps@[i]@.map_values(|x: usize| x as int)[k] == deps@[i]@[k] as int);
    }
    assert(dep_sets(deps@) =~= all_unit_deps(infos)) by {
        assert forall|i: int| 0 <= i < n implies #[trigger] dep_sets(deps@)[i] =~= all_unit_deps(infos)[i] by {
            lemma_ascending(n as int, unit_deps(infos, i));
            let l = deps@[i]@.map_values(|x: usize| x as int);
            assert forall|p: int| index_set(deps@[i]@).contains(p) <==> unit_deps(infos, i).contains(p) by {
                if index_set(deps@[i]@).contains(p) {
                    let k = choose|k: int| 0 <= k < deps@[i]@.len() && deps@[i]@[k] as int == p;
                    assert(l[k] == p);
                }
                if unit_deps(infos, i).contains(p) {
                    let kk = choose|kk: int| 0 <= kk < consumed(infos[i]).len() && producer_of(infos, #[trigger] consumed(infos[i])[kk]) == Some(p);
                    let name = consumed(infos[i])[kk];
                    let c = choose|c: int| 0 <= c < infos.len() && interface_name(infos[c]) == Some(name);
                    assert(0 <= p < n);
                    assert(l.contains(p));
                    let k = choose|k: int| 0 <= k < l.len() && l[k] == p;
                    assert(deps@[i]@[k] as int == p);
                }
            }
        }
    }
    let sources_units: &Vec<CompileUnit> = units;
    assert(sources_of(orig) =~= units@.map_values(|u: CompileUnit| u.source@));
    let waves = match topological_waves(&deps, sources_units.as_slice()) {
        Ok(w) => w,
        Err(e) => return Err(e),
    };
    Ok(ModuleGraph { has_modules: true, waves, bmi_dirs })
}

/// Unit `i` lies in wave `a` of `ws`.
pub open spec fn in_wave(ws: Seq<Seq<int>>, a: int, i: int) -> bool {
    0 <= a < ws.len() && exists|x: int| 0 <= x < ws[a].len() && #[trigger] ws[a][x] == i
}

/// Unit `i` lies in some wave of `ws`.
pub open spec fn in_some_wave(ws: Seq<Seq<int>>, i: int) -> bool {
    exists|a: int, x: int| 0 <= a < ws.len() && 0 <= x < ws[a].len() && #[trigger] ws[a][x] == i
}

/// Unit `i` imports the module that unit `j` exports, or implements it.
pub open spec fn needs_module_of(infos: Seq<InfoView>, i: int, j: int) -> bool {
    exists|k: int| 0 <= k < consumed(infos[i]).len() && interface_name(infos[j]) == Some(#[trigger] consumed(infos[i])[k])
}

/// The waves `ws` of the units hold every unit index exactly once; no wave
/// is empty when there are units; and a unit that exports a module lies in
/// an earlier wave than every unit that imports that module or implements
/// it.
#[verifier::opaque]
pub open spec fn waves_respect_modules(units: Seq<CompileUnit>, texts: Seq<Option<String>>, ws: Seq<Seq<int>>) -> bool {
    &&& forall|i: int| 0 <= i < units.len() <==> #[trigger] in_some_wave(ws, i)
    &&& forall|a: int, x: int, b: int, y: int|
        0 <= a < ws.len() && 0 <= x < ws[a].len() && 0 <= b < ws.len() && 0 <= y < ws[b].len()
            && #[trigger] ws[a][x] == #[trigger] ws[b][y] ==> a == b && x == y
    &&& units.len() > 0 ==> forall|a: int| 0 <= a < ws.len() ==> #[trigger] ws[a].len() > 0
    &&& forall|i: int, j: int, a: int|
        0 <= j < units.len() && #[trigger] needs_module_of(infos_of(units, texts), i, j) && #[trigger] in_wave(ws, a, i)
            ==> exists|b: int| 0 <= b < a && #[trigger] in_wave(ws, b, j)
}

/// Law: when planning a package succeeds, its waves hold every unit index
/// exactly once; no wave is empty when there are units; and a unit that
/// exports a module lies in an earlier wave than every unit that imports
/// that module or implements it.
pub proof fn lemma_prepared_waves(units: Seq<CompileUnit>, texts: Seq<Option<String>>)
    requires
        units.len() == texts.len(),
    ensures
        prepare_outcome(units, texts) matches Ok((used, ws)) ==> waves_respect_modules(units, texts, ws),
{
    reveal(waves_respect_modules);
    let n = units.len() as int;
    let infos = infos_of(units, texts);
    if let Ok((used, ws)) = prepare_outcome(units, texts) {
        assert(declaration_error(units, infos) is None);
        if !adds_flags(units, infos) {
            let all = Seq::new(n as nat, |i: int| i);
            assert(ws == seq![all]);
            assert forall|i: int| 0 <= i < n <==> #[trigger] in_some_wave(ws, i) by {
                if 0 <= i < n {
                    assert(ws[0][i] == i);
                }
            }
            assert(!(exists|i: int| 0 <= i < n && uses_modules(units[i], infos[i])));
            assert forall|i: int, j: int, a: int|
                0 <= j < n && #[trigger] needs_module_of(infos, i, j) && #[trigger] in_wave(ws, a, i)
                    implies exists|b: int| 0 <= b < a && #[trigger] in_wave(ws, b, j) by {
                assert(!uses_modules(units[j], infos[j]));
                assert(interface_name(infos[j]) is None);
            }
        } else {
            let deps = all_unit_deps(infos);
            let rem = vstd::set_lib::set_int_range(0, n);
            vstd::set_lib::lemma_int_range(0, n);
            assert(within(rem, n));
            lemma_waves_partition(deps, rem, n);
            lemma_waves_order(deps, rem, n);
            lemma_waves_nonempty(deps, rem, n);
            assert(plan_waves(deps, rem, n) == Ok::<Seq<Seq<int>>, Set<int>>(ws));
            let dp = |j: int| duplicate_at(infos, j);
            lemma_find_from(dp, 0, n);
            assert forall|j: int| 0 <= j < infos.len() implies !#[trigger] duplicate_at(infos, j) by {
                assert(!dp(j));
            }
            assert(unique_producers(infos));
            assert forall|i: int| 0 <= i < n <==> #[trigger] in_some_wave(ws, i) by {
                assert(rem.contains(i) <==> 0 <= i < n);
            }
            assert forall|i: int, j: int, a: int|
                0 <= j < n && #[trigger] needs_module_of(infos, i, j) && #[trigger] in_wave(ws, a, i)
                    implies exists|b: int| 0 <= b < a && #[trigger] in_wave(ws, b, j) by {
                let x = choose|x: int| 0 <= x < ws[a].len() && #[trigger] ws[a][x] == i;
                assert(rem.contains(i));
                let k = choose|k: int| 0 <= k < consumed(infos[i]).len() && interface_name(infos[j]) == Some(#[trigger] consumed(infos[i])[k]);
                lemma_producer_of(infos, consumed(infos[i])[k], j);
                assert(unit_deps(infos, i).contains(j));
                assert(deps[ws[a][x]].contains(j));
                assert(rem.contains(j));
                let (b, y) = choose|b: int, y: int| 0 <= b < a && 0 <= y < ws[b].len() && #[trigger] ws[b][y] == j;
                assert(in_wave(ws, b, j));
            }
        }
    }
}

} // verus!
