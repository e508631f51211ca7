//! Test discovery rules and result summaries for `cbld test`.
use vstd::prelude::*;

use crate::bench::{
    all_digits, ascii_lower, digits_value, is_digit, lemma_digits_value_nonneg, only_digits, saturated_value,
};
use crate::error::{CbldError, Result};
use crate::language::{language_of, Language};
use crate::manifest::Manifest;
use crate::path::{
    join, join_spec, lists, paths_ascending, relative_to, set_extension, sorted_paths, strip_base,
    with_extension,
};
use crate::project::package_include_dirs;
use crate::text::{
    views, chars_of, contains_char, contains_chars, has_infix, has_prefix, lines_of, lines_spec, push_str, starts_with_chars,
    sub_chars, words_of, words_spec,
};

verus! {

/// `str::parse::<usize>`: an optional `+`, then at least one digit, within range.
pub open spec fn parse_usize_spec(t: Seq<char>) -> Option<usize> {
    let body = if t.len() > 0 && t[0] == '+' { t.drop_first() } else { t };
    if body.len() > 0 && all_digits(body) && digits_value(body) <= usize::MAX {
        Some(digits_value(body) as usize)
    } else {
        None
    }
}

/// Whether `c` is an ASCII letter.
pub open spec fn is_ascii_alpha(c: char) -> bool {
    ('a' <= c && c <= 'z') || ('A' <= c && c <= 'Z')
}

/// `s` without leading and trailing characters that are not ASCII letters.
pub open spec fn trim_non_alpha(s: Seq<char>) -> Seq<char>
    decreases s.len(),
{
    if s.len() > 0 && !is_ascii_alpha(s[0]) {
        trim_non_alpha(s.drop_first())
    } else if s.len() > 0 && !is_ascii_alpha(s.last()) {
        trim_non_alpha(s.drop_last())
    } else {
        s
    }
}

/// `s` in ASCII lower case.
pub open spec fn lower(s: Seq<char>) -> Seq<char> {
    s.map_values(|c: char| ascii_lower(c))
}

/// Whether `pat` occurs in `s`.
pub open spec fn contains_text(s: Seq<char>, pat: Seq<char>) -> bool {
    exists|i: int| 0 <= i && i + pat.len() <= s.len() && #[trigger] s.subrange(i, i + pat.len()) == pat
}

/// The count in the first pair of words `N label` (label compared without
/// surrounding non-letters and ignoring ASCII case) whose `N` is a number.
pub open spec fn count_before_from(words: Seq<Seq<char>>, label: Seq<char>, i: int) -> Option<usize>
    decreases words.len() - i,
{
    if i < 0 || i + 1 >= words.len() {
        None
    } else if lower(trim_non_alpha(words[i + 1])) == lower(label) && parse_usize_spec(words[i]) is Some {
        parse_usize_spec(words[i])
    } else {
        count_before_from(words, label, i + 1)
    }
}

/// ASCII lower case keeps letters letters and everything else unchanged.
proof fn lemma_ascii_lower_char(c: char)
    ensures
        is_ascii_alpha(ascii_lower(c)) == is_ascii_alpha(c),
        ascii_lower(ascii_lower(c)) == ascii_lower(c),
        !is_ascii_alpha(c) ==> ascii_lower(c) == c,
        ('0' <= ascii_lower(c) <= '9') == ('0' <= c <= '9'),
        (ascii_lower(c) == '+') == (c == '+'),
{
}

proof fn lemma_lower_lower(s: Seq<char>)
    ensures
        lower(lower(s)) == lower(s),
{
    assert forall|i: int| 0 <= i < s.len() implies #[trigger] lower(lower(s))[i] == lower(s)[i] by {
        lemma_ascii_lower_char(s[i]);
    }
    assert(lower(lower(s)) =~= lower(s));
}

proof fn lemma_trim_non_alpha_lower(s: Seq<char>)
    ensures
        trim_non_alpha(lower(s)) == lower(trim_non_alpha(s)),
    decreases s.len(),
{
    let l = lower(s);
    if s.len() > 0 {
        lemma_ascii_lower_char(s[0]);
        lemma_ascii_lower_char(s.last());
        assert(l[0] == ascii_lower(s[0]));
        assert(l.last() == ascii_lower(s.last()));
        if !is_ascii_alpha(s[0]) {
            assert(l.drop_first() =~= lower(s.drop_first()));
            lemma_trim_non_alpha_lower(s.drop_first());
        } else if !is_ascii_alpha(s.last()) {
            assert(l.drop_last() =~= lower(s.drop_last()));
            lemma_trim_non_alpha_lower(s.drop_last());
        }
    }
}

proof fn lemma_parse_usize_lower(t: Seq<char>)
    ensures
        parse_usize_spec(lower(t)) == parse_usize_spec(t),
{
    let l = lower(t);
    if t.len() > 0 {
        lemma_ascii_lower_char(t[0]);
    }
    let body = if t.len() > 0 && t[0] == '+' { t.drop_first() } else { t };
    let lbody = if l.len() > 0 && l[0] == '+' { l.drop_first() } else { l };
    assert(lbody =~= lower(body));
    assert forall|i: int| 0 <= i < body.len() implies (is_digit(#[trigger] lbody[i]) == is_digit(body[i])) by {
        lemma_ascii_lower_char(body[i]);
    }
    if all_digits(body) {
        assert forall|i: int| 0 <= i < body.len() implies lbody[i] == body[i] by {
            lemma_ascii_lower_char(body[i]);
        }
        assert(lbody =~= body);
    } else {
        let i = choose|i: int| 0 <= i < body.len() && !is_digit(#[trigger] body[i]);
        assert(!is_digit(lbody[i]));
    }
}

/// Law: summary labels are matched ignoring ASCII case, on either side:
/// the counts read from words do not change when the words, or the label,
/// are put in lower case. So ` 1 FAILED TEST` counts for `failed`.
pub proof fn lemma_count_label_case(words: Seq<Seq<char>>, label: Seq<char>, i: int)
    ensures
        count_before_from(words.map_values(|w: Seq<char>| lower(w)), label, i) == count_before_from(words, label, i),
        count_before_from(words, lower(label), i) == count_before_from(words, label, i),
    decreases words.len() - i,
{
    let lw = words.map_values(|w: Seq<char>| lower(w));
    lemma_lower_lower(label);
    if 0 <= i && i + 1 < words.len() {
        assert(lw[i] == lower(words[i]));
        assert(lw[i + 1] == lower(words[i + 1]));
        lemma_trim_non_alpha_lower(words[i + 1]);
        lemma_lower_lower(trim_non_alpha(words[i + 1]));
        lemma_parse_usize_lower(words[i]);
        lemma_count_label_case(words, label, i + 1);
    }
}

/// The first number among the words of `words` from `i` on.
pub open spec fn first_number_from(words: Seq<Seq<char>>, i: int) -> Option<usize>
    decreases words.len() - i,
{
    if i < 0 || i >= words.len() {
        None
    } else if parse_usize_spec(words[i]) is Some {
        parse_usize_spec(words[i])
    } else {
        first_number_from(words, i + 1)
    }
}

/// The first number after the first `]` of a line.
pub open spec fn count_after_bracket(line: Seq<char>) -> Option<usize> {
    let k = crate::text::find_char(line, 0, ']');
    if k < line.len() {
        first_number_from(words_spec(line.subrange(k + 1, line.len() as int)), 0)
    } else {
        None
    }
}

/// The count a summary line gives for `label`.
pub open spec fn line_count(line: Seq<char>, label: Seq<char>) -> Option<usize> {
    match count_before_from(words_spec(line), label, 0) {
        Some(n) => Some(n),
        None => count_after_bracket(line),
    }
}

pub open spec fn kw_passed() -> Seq<char> {
    seq!['p', 'a', 's', 's', 'e', 'd']
}

pub open spec fn kw_failed() -> Seq<char> {
    seq!['f', 'a', 'i', 'l', 'e', 'd']
}

proof fn lemma_ws_lower(s: Seq<char>, i: int)
    requires
        0 <= i,
    ensures
        crate::text::ws_start(lower(s), i) == crate::text::ws_start(s, i),
        crate::text::ws_end(lower(s), i) == crate::text::ws_end(s, i),
    decreases s.len() - i,
{
    if i < s.len() {
        let c = s[i];
        assert(lower(s)[i] == ascii_lower(c));
        assert(crate::text::is_unicode_ws(ascii_lower(c)) == crate::text::is_unicode_ws(c));
        lemma_ws_lower(s, i + 1);
    }
}

proof fn lemma_words_lower(s: Seq<char>, i: int)
    ensures
        crate::text::words_from(lower(s), i) == crate::text::words_from(s, i).map_values(|w: Seq<char>| lower(w)),
    decreases s.len() - i,
{
    let l = lower(s);
    if 0 <= i <= s.len() {
        lemma_ws_lower(s, i);
        crate::text::lemma_ws_bounds(s, i);
        let a = crate::text::ws_end(s, i);
        if a < s.len() {
            lemma_ws_lower(s, a);
            crate::text::lemma_ws_bounds(s, a);
            let b = crate::text::ws_start(s, a);
            assert(b > a);
            lemma_words_lower(s, b);
            assert(l.subrange(a, b) =~= lower(s.subrange(a, b)));
            let rest = crate::text::words_from(s, b);
            assert(crate::text::words_from(s, i) == seq![s.subrange(a, b)] + rest);
            assert(crate::text::words_from(l, i) == seq![l.subrange(a, b)] + crate::text::words_from(l, b));
            assert((seq![s.subrange(a, b)] + rest).map_values(|w: Seq<char>| lower(w)) =~= seq![lower(s.subrange(a, b))]
                + rest.map_values(|w: Seq<char>| lower(w)));
        } else {
            assert(crate::text::words_from(s, i) =~= seq![]);
            assert(crate::text::words_from(s, i).map_values(|w: Seq<char>| lower(w)) =~= seq![]);
        }
    } else {
        assert(crate::text::words_from(s, i).map_values(|w: Seq<char>| lower(w)) =~= seq![]);
    }
}

proof fn lemma_find_char_lower(s: Seq<char>, i: int)
    requires
        0 <= i,
    ensures
        crate::text::find_char(lower(s), i, ']') == crate::text::find_char(s, i, ']'),
    decreases s.len() - i,
{
    if 0 <= i < s.len() {
        assert(lower(s)[i] == ascii_lower(s[i]));
        lemma_find_char_lower(s, i + 1);
    }
}

proof fn lemma_first_number_lower(words: Seq<Seq<char>>, i: int)
    ensures
        first_number_from(words.map_values(|w: Seq<char>| lower(w)), i) == first_number_from(words, i),
    decreases words.len() - i,
{
    if 0 <= i < words.len() {
        lemma_parse_usize_lower(words[i]);
        assert(words.map_values(|w: Seq<char>| lower(w))[i] == lower(words[i]));
        lemma_first_number_lower(words, i + 1);
    }
}

/// Law: a summary line gives the same count for a label whatever the ASCII
/// case of its letters; ` 1 FAILED TEST` gives for `failed` what
/// ` 1 failed test` gives.
pub proof fn lemma_line_count_case(line: Seq<char>, label: Seq<char>)
    ensures
        line_count(lower(line), label) == line_count(line, label),
        line_count(line, lower(label)) == line_count(line, label),
{
    let l = lower(line);
    lemma_words_lower(line, 0);
    lemma_count_label_case(crate::text::words_spec(line), label, 0);
    lemma_find_char_lower(line, 0);
    let k = crate::text::find_char(line, 0, ']');
    crate::text::lemma_find_char(line, 0, ']');
    if k < line.len() {
        let tail = line.subrange(k + 1, line.len() as int);
        assert(l.subrange(k + 1, l.len() as int) =~= lower(tail));
        lemma_words_lower(tail, 0);
        lemma_first_number_lower(crate::text::words_spec(tail), 0);
    }
}

/// The passed and failed counts after the lines seen so far: each line that
/// mentions `passed` (`failed`) sets that count, to `None` if it gives none.
pub open spec fn summary_counts(lines: Seq<Seq<char>>) -> (Option<usize>, Option<usize>)
    decreases lines.len(),
{
    if lines.len() == 0 {
        (None, None)
    } else {
        let (p, f) = summary_counts(lines.drop_last());
        let line = lines.last();
        let p2 = if contains_text(lower(line), kw_passed()) { line_count(line, kw_passed()) } else { p };
        let f2 = if contains_text(lower(line), kw_failed()) { line_count(line, kw_failed()) } else { f };
        (p2, f2)
    }
}

/// `(passed, failed)` of a test run: the counts its summary lines give, or
/// one pass or one failure by the exit status when no line gives any.
pub open spec fn test_summary(output: Seq<char>, success: bool) -> (usize, usize) {
    let (p, f) = summary_counts(lines_spec(output));
    if p is Some || f is Some {
        (
            match p {
                Some(n) => n,
                None => 0,
            },
            match f {
                Some(n) => n,
                None => 0,
            },
        )
    } else if success {
        (1, 0)
    } else {
        (0, 1)
    }
}


/// `str::parse::<usize>`.
pub fn parse_usize(t: &[char]) -> (r: Option<usize>)
    ensures
        r == parse_usize_spec(t@),
{
    let n = t.len();
    let start: usize = if n > 0 && t[0] == '+' { 1 } else { 0 };
    let body = sub_chars(t, start, n);
    assert(body@ == if t@.len() > 0 && t@[0] == '+' { t@.drop_first() } else { t@ }) by {
        if start == 0 {
            assert(t@.subrange(0, n as int) =~= t@);
        } else {
            assert(t@.subrange(1, n as int) =~= t@.drop_first());
        }
    }
    if body.len() == 0 || !only_digits(&body) {
        return None;
    }
    proof {
        lemma_digits_value_nonneg(body@);
    }
    let m = saturated_value(&body, 0x10000000000000000u128);
    if m > usize::MAX as u128 {
        None
    } else {
        Some(m as usize)
    }
}

/// `s` in ASCII lower case.
fn to_lower(s: &[char]) -> (r: Vec<char>)
    ensures
        r@ == lower(s@),
{
    let mut l: Vec<char> = Vec::new();
    for q in 0..s.len()
        invariant
            l@ == lower(s@.take(q as int)),
    {
        let c = s[q];
        let lc = if c >= 'A' && c <= 'Z' { ((c as u32) + 32) as u8 as char } else { c };
        assert(lc == ascii_lower(c)) by {
            if 'A' <= c && c <= 'Z' {
                assert(((c as u32) + 32) as u8 as char == ((c as u32) + 32) as char);
            }
        }
        l.push(lc);
        assert(lower(s@.take(q + 1)) =~= lower(s@.take(q as int)).push(lc));
    }
    assert(s@.take(s@.len() as int) =~= s@);
    l
}

/// Exec form of [`contains_text`].
fn contains(s: &[char], pat: &[char]) -> (r: bool)
    ensures
        r == contains_text(s@, pat@),
{
    let n = s.len();
    let m = pat.len();
    if m > n {
        return false;
    }
    if m == 0 {
        assert(s@.subrange(0, 0 + pat@.len() as int) =~= pat@);
        return true;
    }
    let mut i: usize = 0;
    while i <= n - m
        invariant
            1 <= m <= n,
            n == s@.len(),
            m == pat@.len(),
            forall|j: int| 0 <= j < i ==> #[trigger] s@.subrange(j, j + m) != pat@,
        decreases n - m + 1 - i,
    {
        let piece = sub_chars(s, i, i + m);
        if crate::text::chars_eq(&piece, pat) {
            return true;
        }
        i += 1;
    }
    false
}

/// Exec form of [`trim_non_alpha`].
fn trim_letters(s: &[char]) -> (r: Vec<char>)
    ensures
        r@ == trim_non_alpha(s@),
{
    let mut a: usize = 0;
    let n = s.len();
    assert(s@.subrange(0, n as int) =~= s@);
    while a < n && !((s[a] >= 'a' && s[a] <= 'z') || (s[a] >= 'A' && s[a] <= 'Z'))
        invariant
            a <= n == s@.len(),
            trim_non_alpha(s@.subrange(a as int, n as int)) == trim_non_alpha(s@),
        decreases n - a,
    {
        assert(s@.subrange(a as int, n as int).drop_first() =~= s@.subrange(a + 1, n as int));
        a += 1;
    }
    let mut b: usize = n;
    while b > a && !((s[b - 1] >= 'a' && s[b - 1] <= 'z') || (s[b - 1] >= 'A' && s[b - 1] <= 'Z'))
        invariant
            a <= b <= n == s@.len(),
            a < n ==> is_ascii_alpha(s@[a as int]),
            trim_non_alpha(s@.subrange(a as int, b as int)) == trim_non_alpha(s@),
        decreases b,
    {
        let ghost t = s@.subrange(a as int, b as int);
        assert(t.drop_last() =~= s@.subrange(a as int, b - 1));
        assert(b - 1 > a ==> t[0] == s@[a as int]);
        if b - 1 == a {
            assert(!is_ascii_alpha(t[0]));
        }
        b -= 1;
    }
    sub_chars(s, a, b)
}

/// The count in the first `N label` pair of words of `line`.
fn find_count_before(line: &[char], label: &[char]) -> (r: Option<usize>)
    ensures
        r == count_before_from(words_spec(line@), label@, 0),
{
    let words = words_of(line);
    let ghost ws = words_spec(line@);
    let want = to_lower(label);
    let mut i: usize = 0;
    while i < words.len() && i + 1 < words.len()
        invariant
            words@.map_values(|w: Vec<char>| w@) == ws,
            ws == words_spec(line@),
            want@ == lower(label@),
            count_before_from(ws, label@, i as int) == count_before_from(ws, label@, 0),
        decreases words@.len() - i,
    {
        assert(words@.map_values(|w: Vec<char>| w@)[i as int] == words@[i as int]@);
        assert(words@.map_values(|w: Vec<char>| w@)[i + 1] == words@[i + 1]@);
        let norm = to_lower(&trim_letters(&words[i + 1]));
        if crate::text::chars_eq(&norm, &want) {
            match parse_usize(&words[i]) {
                Some(v) => {
                    assert(Some(v) == parse_usize_spec(words@[i as int]@));
                    assert(count_before_from(ws, label@, i as int) == parse_usize_spec(ws[i as int]));
                    return Some(v);
                },
                None => {},
            }
        }
        i += 1;
    }
    None
}

/// The first number after the first `]` of `line`.
fn find_count_after_bracket(line: &[char]) -> (r: Option<usize>)
    ensures
        r == count_after_bracket(line@),
{
    let n = line.len();
    let k = crate::text::find_char_from(line, 0, ']');
    if k >= n {
        return None;
    }
    let after = sub_chars(line, k + 1, n);
    let words = words_of(&after);
    let ghost ws = words_spec(after@);
    let mut i: usize = 0;
    while i < words.len()
        invariant
            words@.map_values(|w: Vec<char>| w@) == ws,
            ws == words_spec(after@),
            after@ == line@.subrange(k + 1, n as int),
            k == crate::text::find_char(line@, 0, ']'),
            k < n == line@.len(),
            first_number_from(ws, i as int) == first_number_from(ws, 0),
        decreases words@.len() - i,
    {
        assert(words@.map_values(|w: Vec<char>| w@)[i as int] == words@[i as int]@);
        match parse_usize(&words[i]) {
            Some(v) => {
                assert(Some(v) == parse_usize_spec(words@[i as int]@));
                assert(first_number_from(ws, i as int) == parse_usize_spec(ws[i as int]));
                return Some(v);
            },
            None => {},
        }
        i += 1;
    }
    None
}

/// A runner's standard output and standard error as one text: the two
/// joined by a newline.
pub open spec fn joined_spec(stdout: Seq<char>, stderr: Seq<char>) -> Seq<char> {
    stdout + "\n"@ + stderr
}

/// Join a runner's standard output and standard error with a newline.
pub fn joined_output(stdout: &str, stderr: &str) -> (r: String)
    ensures
        r@ == joined_spec(stdout@, stderr@),
{
    let mut out = String::new();
    push_str(&mut out, stdout);
    push_str(&mut out, "\n");
    push_str(&mut out, stderr);
    out
}

/// The arguments a test runner is started with: `--gtest_filter=<f>` when
/// a filter is given, none otherwise.
pub fn test_args(filter: Option<&str>) -> (r: Vec<String>)
    ensures
        views(r@) == match filter {
            Some(f) => seq!["--gtest_filter="@ + f@],
            None => seq![],
        },
{
    let mut args: Vec<String> = Vec::new();
    match filter {
        Some(f) => {
            let mut a = String::new();
            push_str(&mut a, "--gtest_filter=");
            push_str(&mut a, f);
            args.push(a);
            assert(views(args@) =~= seq![a@]);
        },
        None => {
            assert(views(args@) =~= seq![]);
        },
    }
    args
}

/// What a finished test run reports, from its exit status and the two
/// output streams: the passed and failed counts read from the joined
/// output, and that output. A failing exit status is not an error here;
/// it only counts as a failure when the output gives no counts.
pub fn test_run_counts(success: bool, stdout: &str, stderr: &str) -> (r: (usize, usize, String))
    ensures
        r.2@ == joined_spec(stdout@, stderr@),
        (r.0, r.1) == test_summary(joined_spec(stdout@, stderr@), success),
{
    let combined = joined_output(stdout, stderr);
    let (passed, failed) = parse_test_summary(combined.as_str(), success);
    (passed, failed, combined)
}

/// Parse the passed and failed counts from a test binary's output (GoogleTest
/// `[  PASSED  ] N tests.`, Catch2 `N passed | M failed`, ...); without any,
/// one pass or one failure by the exit status.
pub fn parse_test_summary(output: &str, success: bool) -> (r: (usize, usize))
    ensures
        r == test_summary(output@, success),
{
    let v = chars_of(output);
    let lines = lines_of(&v);
    let ghost ls = lines_spec(v@);
    let mut passed: Option<usize> = None;
    let mut failed: Option<usize> = None;
    let passed_word = ['p', 'a', 's', 's', 'e', 'd'];
    let failed_word = ['f', 'a', 'i', 'l', 'e', 'd'];
    assert(passed_word@ =~= kw_passed());
    assert(failed_word@ =~= kw_failed());
    assert(ls.take(0) =~= seq![]);
    for i in 0..lines.len()
        invariant
            lines@.map_values(|l: Vec<char>| l@) == ls,
            passed_word@ == kw_passed(),
            failed_word@ == kw_failed(),
            (passed, failed) == summary_counts(ls.take(i as int)),
    {
        assert(lines@.map_values(|l: Vec<char>| l@)[i as int] == lines@[i as int]@);
        assert(ls.take(i + 1).drop_last() =~= ls.take(i as int));
        let line = &lines[i];
        let lowered = to_lower(line);
        if contains(&lowered, &passed_word) {
            passed = match find_count_before(line, &passed_word) {
                Some(n) => Some(n),
                None => find_count_after_bracket(line),
            };
        }
        if contains(&lowered, &failed_word) {
            failed = match find_count_before(line, &failed_word) {
                Some(n) => Some(n),
                None => find_count_after_bracket(line),
            };
        }
    }
    assert(ls.take(ls.len() as int) =~= ls);
    if passed.is_some() || failed.is_some() {
        return (
            match passed {
                Some(n) => n,
                None => 0,
            },
            match failed {
                Some(n) => n,
                None => 0,
            },
        );
    }
    if success {
        (1, 0)
    } else {
        (0, 1)
    }
}

/// A file name that marks a test: `test_*`, `*_test.*`, `test-*` or `*-test.*`.
pub open spec fn is_test_name(name: Seq<char>) -> bool {
    ||| has_prefix(name, seq!['t', 'e', 's', 't', '_'])
    ||| has_infix(name, seq!['_', 't', 'e', 's', 't', '.'])
    ||| has_prefix(name, seq!['t', 'e', 's', 't', '-'])
    ||| has_infix(name, seq!['-', 't', 'e', 's', 't', '.'])
}

/// Whether the file at `rel` (relative to the package root) is a test
/// source: a C or C++ file anywhere under `tests/`, `test/` or
/// `src/tests/`, or directly in `src/` with a test name.
pub open spec fn is_test_source(rel: Seq<char>) -> bool {
    &&& language_of(rel) is Some
    &&& {
        ||| has_prefix(rel, seq!['t', 'e', 's', 't', 's', '/'])
        ||| has_prefix(rel, seq!['t', 'e', 's', 't', '/'])
        ||| has_prefix(rel, seq!['s', 'r', 'c', '/', 't', 'e', 's', 't', 's', '/'])
        ||| (has_prefix(rel, seq!['s', 'r', 'c', '/']) && !rel.skip(4).contains('/') && is_test_name(rel.skip(4)))
    }
}

/// `k` is the path under `root` of a test source among `files`.
pub open spec fn is_found_test(root: Seq<char>, files: Seq<String>, k: Seq<char>) -> bool {
    exists|i: int| 0 <= i < files.len() && is_test_source(files[i]@) && #[trigger] join_spec(root, files[i]@) == k
}

/// The error text when a package has no test sources.
pub open spec fn no_tests_message(root: Seq<char>) -> Seq<char> {
    "no test sources found under "@ + root + "/tests, "@ + root + "/test, or src/test_*/src/*_test.*"@
}

fn test_name(name: &[char]) -> (r: bool)
    ensures
        r == is_test_name(name@),
{
    let a = vec!['t', 'e', 's', 't', '_'];
    let b = vec!['_', 't', 'e', 's', 't', '.'];
    let c = vec!['t', 'e', 's', 't', '-'];
    let d = vec!['-', 't', 'e', 's', 't', '.'];
    assert(a@ == seq!['t', 'e', 's', 't', '_'] && b@ == seq!['_', 't', 'e', 's', 't', '.']);
    assert(c@ == seq!['t', 'e', 's', 't', '-'] && d@ == seq!['-', 't', 'e', 's', 't', '.']);
    starts_with_chars(name, &a) || contains_chars(name, &b) || starts_with_chars(name, &c) || contains_chars(name, &d)
}

/// Exec form of [`is_test_source`].
fn test_source(rel: &str) -> (r: bool)
    ensures
        r == is_test_source(rel@),
{
    if Language::from_extension(rel).is_none() {
        return false;
    }
    let v = chars_of(rel);
    let tests = vec!['t', 'e', 's', 't', 's', '/'];
    let test = vec!['t', 'e', 's', 't', '/'];
    let src_tests = vec!['s', 'r', 'c', '/', 't', 'e', 's', 't', 's', '/'];
    let src = vec!['s', 'r', 'c', '/'];
    assert(tests@ == seq!['t', 'e', 's', 't', 's', '/'] && test@ == seq!['t', 'e', 's', 't', '/']);
    assert(src_tests@ == seq!['s', 'r', 'c', '/', 't', 'e', 's', 't', 's', '/'] && src@ == seq!['s', 'r', 'c', '/']);
    if starts_with_chars(&v, &tests) || starts_with_chars(&v, &test) || starts_with_chars(&v, &src_tests) {
        return true;
    }
    if starts_with_chars(&v, &src) {
        let name = sub_chars(&v, 4, v.len());
        assert(name@ == v@.skip(4));
        return !contains_char(&name, '/') && test_name(&name);
    }
    false
}

/// Collect the test sources of the package at `root`, given the paths
/// (relative to `root`, `/`-separated) of the files found below it: C and
/// C++ files under `tests/`, `test/` and `src/tests/`, and `src/test_*`,
/// `src/*_test.*` (or with `-`). The result is sorted and without repeats;
/// finding none is an error.
pub fn collect_test_sources(root: &str, files: &[String]) -> (r: Result<Vec<String>>)
    ensures
        (exists|i: int| 0 <= i < files@.len() && #[trigger] is_test_source(files@[i]@)) ==> (r matches Ok(v) && {
            &&& paths_ascending(v@)
            &&& forall|k: Seq<char>| #[trigger] lists(v@, k) <==> is_found_test(root@, files@, k)
        }),
        !(exists|i: int| 0 <= i < files@.len() && #[trigger] is_test_source(files@[i]@)) ==> (r matches Err(
            CbldError::LayoutViolation(m),
        ) && m@ == no_tests_message(root@)),
{
    let mut found: Vec<String> = Vec::new();
    for i in 0..files.len()
        invariant
            forall|k: Seq<char>| #[trigger] lists(found@, k) <==> (exists|j: int|
                0 <= j < i && is_test_source(files@[j]@) && #[trigger] join_spec(root@, files@[j]@) == k),
            found@.len() == 0 <==> !(exists|j: int| 0 <= j < i && #[trigger] is_test_source(files@[j]@)),
    {
        let ghost before = found@;
        if test_source(files[i].as_str()) {
            found.push(join(root, files[i].as_str()));
            proof {
                assert forall|k: Seq<char>| #[trigger] lists(found@, k) <==> (exists|j: int|
                    0 <= j < i + 1 && is_test_source(files@[j]@) && #[trigger] join_spec(root@, files@[j]@) == k) by {
                    if lists(found@, k) {
                        let a = choose|a: int| 0 <= a < found@.len() && #[trigger] found@[a]@ == k;
                        if a < before.len() {
                            assert(lists(before, k));
                        } else {
                            assert(join_spec(root@, files@[i as int]@) == k);
                        }
                    }
                    if exists|j: int| 0 <= j < i + 1 && is_test_source(files@[j]@) && #[trigger] join_spec(root@, files@[j]@) == k {
                        let j = choose|j: int| 0 <= j < i + 1 && is_test_source(files@[j]@) && #[trigger] join_spec(root@, files@[j]@) == k;
                        if j < i {
                            assert(lists(before, k));
                            let a = choose|a: int| 0 <= a < before.len() && #[trigger] before[a]@ == k;
                            assert(found@[a]@ == k);
                        } else {
                            assert(found@[before.len() as int]@ == k);
                        }
                    }
                }
            }
        } else {
            proof {
                assert forall|k: Seq<char>| #[trigger] lists(found@, k) <==> (exists|j: int|
                    0 <= j < i + 1 && is_test_source(files@[j]@) && #[trigger] join_spec(root@, files@[j]@) == k) by {
                    if exists|j: int| 0 <= j < i + 1 && is_test_source(files@[j]@) && #[trigger] join_spec(root@, files@[j]@) == k {
                        let j = choose|j: int| 0 <= j < i + 1 && is_test_source(files@[j]@) && #[trigger] join_spec(root@, files@[j]@) == k;
                        assert(j < i);
                    }
                }
            }
        }
    }
    if found.len() == 0 {
        let mut m = String::new();
        push_str(&mut m, "no test sources found under ");
        push_str(&mut m, root);
        push_str(&mut m, "/tests, ");
        push_str(&mut m, root);
        push_str(&mut m, "/test, or src/test_*/src/*_test.*");
        return Err(CbldError::LayoutViolation(m));
    }
    let sorted = sorted_paths(&found);
    proof {
        assert forall|k: Seq<char>| #[trigger] lists(sorted@, k) <==> is_found_test(root@, files@, k) by {
            assert(lists(found@, k) <==> (exists|j: int|
                0 <= j < files@.len() && is_test_source(files@[j]@) && #[trigger] join_spec(root@, files@[j]@) == k));
        }
    }
    Ok(sorted)
}

/// How a test or benchmark executable is built.
pub struct TestBuildOptions<'a> {
    pub active_features: &'a [String],
    /// Target triple; `None` builds natively.
    pub target: Option<&'a str>,
    pub sysroot: Option<&'a str>,
    /// Archives of the package under test, linked into the executable.
    pub link_archives: &'a [String],
    pub release: bool,
    pub verbose: bool,
    pub quiet: bool,
    pub jobs: usize,
}

/// Where a runner executable and its objects go.
pub struct RunnerPlan {
    /// `target[/<triple>]/debug` or `.../release` under the package root.
    pub target_dir: String,
    /// The executable.
    pub binary: String,
    /// The directory of the runner's object files.
    pub object_dir: String,
    /// One object file per source, in the order of the sources.
    pub objects: Vec<String>,
    /// Whether any source is C++, so that the link uses the C++ driver.
    pub links_cpp: bool,
    /// The package's `include_dirs`, resolved against its root.
    pub include_dirs: Vec<String>,
}

/// Build artifacts of `root` go to `target/` (`target/<triple>/` when
/// cross-compiling), then `debug/` or `release/`.
pub open spec fn target_dir_spec(root: Seq<char>, target: Option<Seq<char>>, release: bool) -> Seq<char> {
    let base = join_spec(root, "target"@);
    let per_target = match target {
        Some(t) => join_spec(base, t),
        None => base,
    };
    join_spec(per_target, if release { "release"@ } else { "debug"@ })
}

/// The object file of `source`: its path below the package root, placed
/// under `object_dir`, with extension `o`.
pub open spec fn object_path_spec(object_dir: Seq<char>, root: Seq<char>, source: Seq<char>) -> Seq<char> {
    with_extension(join_spec(object_dir, relative_to(source, root)), "o"@)
}

/// The plan for building the runner executable `binary_name` from
/// `sources` of the package at `root`. The package must have a
/// `[package]` table and at least one source. `exe_suffix` adds `.exe` to
/// the executable's name.
pub fn runner_plan(
    root: &str,
    manifest: &Manifest,
    sources: &[String],
    options: &TestBuildOptions,
    binary_name: &str,
    exe_suffix: bool,
) -> (r: Result<RunnerPlan>)
    ensures
        manifest.package is None ==> (r matches Err(CbldError::Config(m)) && m@ == "no [package] in cbld.toml"@),
        manifest.package is Some && sources@.len() == 0 ==> (r matches Err(CbldError::LayoutViolation(m)) && m@
            == "no test sources were discovered"@),
        manifest.package is Some && sources@.len() > 0 ==> (r matches Ok(plan) && {
            let dir = target_dir_spec(root@, match options.target {
                Some(t) => Some(t@),
                None => None,
            }, options.release);
            let obj = join_spec(join_spec(dir, "obj"@), binary_name@);
            &&& plan.target_dir@ == dir
            &&& plan.binary@ == join_spec(dir, binary_name@ + if exe_suffix { ".exe"@ } else { seq![] })
            &&& plan.object_dir@ == obj
            &&& plan.objects@.len() == sources@.len()
            &&& forall|i: int| 0 <= i < sources@.len() ==> #[trigger] plan.objects@[i]@ == object_path_spec(obj, root@, sources@[i]@)
            &&& plan.links_cpp == exists|i: int| 0 <= i < sources@.len() && #[trigger] language_of(sources@[i]@) == Some(Language::Cpp)
            &&& plan.include_dirs@.len() == manifest.package->0.include_dirs@.len()
            &&& forall|i: int| 0 <= i < plan.include_dirs@.len() ==> #[trigger] plan.include_dirs@[i]@ == join_spec(root@, manifest.package->0.include_dirs@[i]@)
        }),
{
    let package = match &manifest.package {
        Some(p) => p,
        None => {
            return Err(CbldError::Config("no [package] in cbld.toml".to_owned()));
        },
    };
    if sources.len() == 0 {
        return Err(CbldError::LayoutViolation("no test sources were discovered".to_owned()));
    }
    let base = join(root, "target");
    let per_target = match options.target {
        Some(t) => join(base.as_str(), t),
        None => base,
    };
    let target_dir = join(per_target.as_str(), if options.release { "release" } else { "debug" });
    let mut file = String::new();
    push_str(&mut file, binary_name);
    if exe_suffix {
        push_str(&mut file, ".exe");
    }
    proof {
        reveal_strlit("");
    }
    assert(file@ =~= binary_name@ + if exe_suffix { ".exe"@ } else { seq![] });
    let binary = join(target_dir.as_str(), file.as_str());
    let obj = join(target_dir.as_str(), "obj");
    let object_dir = join(obj.as_str(), binary_name);
    let mut objects: Vec<String> = Vec::new();
    let mut links_cpp = false;
    for i in 0..sources.len()
        invariant
            objects@.len() == i,
            forall|k: int| 0 <= k < i ==> #[trigger] objects@[k]@ == object_path_spec(object_dir@, root@, sources@[k]@),
            links_cpp == exists|k: int| 0 <= k < i && #[trigger] language_of(sources@[k]@) == Some(Language::Cpp),
    {
        let relative = strip_base(sources[i].as_str(), root);
        let placed = join(object_dir.as_str(), relative.as_str());
        objects.push(set_extension(placed.as_str(), "o"));
        if Language::from_extension(sources[i].as_str()) == Some(Language::Cpp) {
            links_cpp = true;
        }
        proof {
            if links_cpp && !(language_of(sources@[i as int]@) == Some(Language::Cpp)) {
                let k = choose|k: int| 0 <= k < i && #[trigger] language_of(sources@[k]@) == Some(Language::Cpp);
                assert(k < i + 1);
            }
        }
    }
    let include_dirs = package_include_dirs(root, package);
    Ok(RunnerPlan { target_dir, binary, object_dir, objects, links_cpp, include_dirs })
}

} // verus!
