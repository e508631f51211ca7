//! Character-level helpers shared by the parsers of this crate.
use vstd::prelude::*;

verus! {

/// `String::push` appends one character.
pub assume_specification[ String::push ](s: &mut String, ch: char)
    ensures
        final(s)@ == old(s)@.push(ch),
;

/// The characters of `s`, in order.
pub fn chars_of(s: &str) -> (v: Vec<char>)
    ensures
        v@ == s@,
{
    let mut v: Vec<char> = Vec::new();
    for c in it: s.chars()
        invariant
            v@ == it.seq().take(it.index() as int),
            it.seq() == s@,
    {
        v.push(c);
    }
    v
}

/// A string holding exactly the characters of `v`.
pub fn string_from(v: &[char]) -> (s: String)
    ensures
        s@ == v@,
{
    let mut s = String::new();
    for i in 0..v.len()
        invariant
            s@ == v@.take(i as int),
    {
        s.push(v[i]);
        assert(v@.take(i + 1) == v@.take(i as int).push(v@[i as int]));
    }
    assert(v@.take(v@.len() as int) == v@);
    s
}


/// Whether `a` and `b` hold the same characters.
pub fn chars_eq(a: &[char], b: &[char]) -> (r: bool)
    ensures
        r == (a@ == b@),
{
    if a.len() != b.len() {
        return false;
    }
    for i in 0..a.len()
        invariant
            a@.len() == b@.len(),
            forall|j: int| 0 <= j < i ==> a@[j] == b@[j],
    {
        if a[i] != b[i] {
            return false;
        }
    }
    assert(a@ =~= b@);
    true
}

/// The characters `v[from..to]` as a new vector.
pub fn sub_chars(v: &[char], from: usize, to: usize) -> (r: Vec<char>)
    requires
        from <= to <= v@.len(),
    ensures
        r@ == v@.subrange(from as int, to as int),
{
    let mut r: Vec<char> = Vec::new();
    let mut i = from;
    while i < to
        invariant
            from <= i <= to <= v@.len(),
            r@ == v@.subrange(from as int, i as int),
        decreases to - i,
    {
        r.push(v[i]);
        i += 1;
        assert(r@ =~= v@.subrange(from as int, i as int));
    }
    r
}

/// ASCII letters and digits (`char::is_ascii_alphanumeric`).
pub open spec fn is_ascii_alnum(c: char) -> bool {
    ('0' <= c && c <= '9') || ('a' <= c && c <= 'z') || ('A' <= c && c <= 'Z')
}

/// `char::is_ascii_alphanumeric`.
pub fn ascii_alnum(c: char) -> (r: bool)
    ensures
        r == is_ascii_alnum(c),
{
    ('0' <= c && c <= '9') || ('a' <= c && c <= 'z') || ('A' <= c && c <= 'Z')
}

/// `s` with every trailing `c` removed (`str::trim_end_matches` with a char).
pub open spec fn trim_end_char(s: Seq<char>, c: char) -> Seq<char>
    decreases s.len(),
{
    if s.len() > 0 && s.last() == c {
        trim_end_char(s.drop_last(), c)
    } else {
        s
    }
}

/// Exec form of [`trim_end_char`].
pub fn trim_end(v: &[char], c: char) -> (r: Vec<char>)
    ensures
        r@ == trim_end_char(v@, c),
{
    let mut end = v.len();
    assert(v@.take(end as int) =~= v@);
    while end > 0 && v[end - 1] == c
        invariant
            end <= v@.len(),
            trim_end_char(v@.take(end as int), c) == trim_end_char(v@, c),
        decreases end,
    {
        assert(v@.take(end as int).drop_last() =~= v@.take(end - 1));
        end -= 1;
    }
    assert(trim_end_char(v@.take(end as int), c) == v@.take(end as int));
    sub_chars(v, 0, end)
}


/// The decimal digit for `d < 10`.
pub open spec fn digit_char(d: nat) -> char {
    if d == 0 { '0' } else if d == 1 { '1' } else if d == 2 { '2' } else if d == 3 { '3' }
    else if d == 4 { '4' } else if d == 5 { '5' } else if d == 6 { '6' } else if d == 7 { '7' }
    else if d == 8 { '8' } else { '9' }
}

/// Decimal notation of `n`, without leading zeros.
pub open spec fn nat_digits(n: nat) -> Seq<char>
    decreases n,
{
    if n < 10 {
        seq![digit_char(n)]
    } else {
        nat_digits(n / 10).push(digit_char(n % 10))
    }
}

/// Decimal notation of `n`, with a leading `-` when negative.
pub open spec fn int_digits(n: int) -> Seq<char> {
    if n < 0 {
        seq!['-'] + nat_digits((-n) as nat)
    } else {
        nat_digits(n as nat)
    }
}

/// The character of a decimal digit.
fn digit(d: u64) -> (c: char)
    requires
        d < 10,
    ensures
        c == digit_char(d as nat),
{
    if d == 0 { '0' } else if d == 1 { '1' } else if d == 2 { '2' } else if d == 3 { '3' }
    else if d == 4 { '4' } else if d == 5 { '5' } else if d == 6 { '6' } else if d == 7 { '7' }
    else if d == 8 { '8' } else { '9' }
}

/// Append the decimal digits of `n` to `out`.
pub fn push_u64(out: &mut String, n: u64)
    ensures
        final(out)@ == old(out)@ + nat_digits(n as nat),
    decreases n,
{
    if n >= 10 {
        push_u64(out, n / 10);
    }
    out.push(digit(n % 10));
    assert(old(out)@ + nat_digits(n as nat) =~= if n >= 10 {
        (old(out)@ + nat_digits((n / 10) as nat)).push(digit_char((n % 10) as nat))
    } else {
        old(out)@.push(digit_char((n % 10) as nat))
    });
}

/// Append the decimal notation of `n` to `out`.
pub fn push_i64(out: &mut String, n: i64)
    ensures
        final(out)@ == old(out)@ + int_digits(n as int),
{
    if n < 0 {
        out.push('-');
        let m: u64 = if n == i64::MIN { 9223372036854775808u64 } else { (-n) as u64 };
        push_u64(out, m);
        assert(old(out)@ + int_digits(n as int) =~= old(out)@.push('-') + nat_digits(m as nat));
    } else {
        push_u64(out, n as u64);
    }
}

/// Append the characters of `s` to `out`.
pub fn push_str(out: &mut String, s: &str)
    ensures
        final(out)@ == old(out)@ + s@,
{
    let v = chars_of(s);
    for i in 0..v.len()
        invariant
            out@ == old(out)@ + v@.take(i as int),
            v@ == s@,
    {
        out.push(v[i]);
        assert(v@.take(i + 1) =~= v@.take(i as int).push(v@[i as int]));
    }
    assert(v@.take(v@.len() as int) =~= v@);
}


/// Unicode `White_Space` (`char::is_whitespace`).
pub open spec fn is_unicode_ws(c: char) -> bool {
    let u = c as u32;
    (0x09 <= u && u <= 0x0D) || u == 0x20 || u == 0x85 || u == 0xA0 || u == 0x1680
        || (0x2000 <= u && u <= 0x200A) || u == 0x2028 || u == 0x2029 || u == 0x202F
        || u == 0x205F || u == 0x3000
}

/// `char::is_whitespace`.
pub fn unicode_ws(c: char) -> (r: bool)
    ensures
        r == is_unicode_ws(c),
{
    let u = c as u32;
    (0x09 <= u && u <= 0x0D) || u == 0x20 || u == 0x85 || u == 0xA0 || u == 0x1680
        || (0x2000 <= u && u <= 0x200A) || u == 0x2028 || u == 0x2029 || u == 0x202F
        || u == 0x205F || u == 0x3000
}

/// `s` without leading whitespace.
pub open spec fn trim_start_ws(s: Seq<char>) -> Seq<char>
    decreases s.len(),
{
    if s.len() > 0 && is_unicode_ws(s[0]) {
        trim_start_ws(s.drop_first())
    } else {
        s
    }
}

/// `s` without trailing whitespace.
pub open spec fn trim_end_ws(s: Seq<char>) -> Seq<char>
    decreases s.len(),
{
    if s.len() > 0 && is_unicode_ws(s.last()) {
        trim_end_ws(s.drop_last())
    } else {
        s
    }
}

/// `str::trim`: `s` without leading and trailing whitespace.
pub open spec fn trim_ws(s: Seq<char>) -> Seq<char> {
    trim_end_ws(trim_start_ws(s))
}

/// Bounds `[a, b)` of [`trim_ws`] inside `v`.
pub fn trim_bounds(v: &[char]) -> (r: (usize, usize))
    ensures
        r.0 <= r.1 <= v@.len(),
        v@.subrange(r.0 as int, r.1 as int) == trim_ws(v@),
{
    let n = v.len();
    let mut a: usize = 0;
    assert(v@.skip(0) =~= v@);
    while a < n && unicode_ws(v[a])
        invariant
            a <= n == v@.len(),
            trim_start_ws(v@.skip(a as int)) == trim_start_ws(v@),
        decreases n - a,
    {
        assert(v@.skip(a as int).drop_first() =~= v@.skip(a + 1));
        a += 1;
    }
    let ghost t = v@.skip(a as int);
    assert(trim_start_ws(t) == t);
    let mut b: usize = n;
    assert(v@.subrange(a as int, b as int) =~= t);
    while b > a && unicode_ws(v[b - 1])
        invariant
            a <= b <= n == v@.len(),
            t == v@.skip(a as int),
            trim_end_ws(v@.subrange(a as int, b as int)) == trim_end_ws(t),
        decreases b,
    {
        assert(v@.subrange(a as int, b as int).drop_last() =~= v@.subrange(a as int, b - 1));
        b -= 1;
    }
    (a, b)
}

/// Append `trim_ws(s)` to `out`.
pub fn push_trimmed(out: &mut String, s: &str)
    ensures
        final(out)@ == old(out)@ + trim_ws(s@),
{
    let v = chars_of(s);
    let (a, b) = trim_bounds(&v);
    let mut i = a;
    while i < b
        invariant
            a <= i <= b <= v@.len(),
            out@ == old(out)@ + v@.subrange(a as int, i as int),
        decreases b - i,
    {
        out.push(v[i]);
        assert(v@.subrange(a as int, i + 1) =~= v@.subrange(a as int, i as int).push(v@[i as int]));
        i += 1;
    }
}


/// The parts joined with `sep` between neighbours (`[..].join(sep)`).
pub open spec fn join_with(parts: Seq<Seq<char>>, sep: Seq<char>) -> Seq<char>
    decreases parts.len(),
{
    if parts.len() == 0 {
        seq![]
    } else if parts.len() == 1 {
        parts[0]
    } else {
        join_with(parts.drop_last(), sep) + sep + parts.last()
    }
}


/// Position of the first `c` at or after `i`, or the length when none.
pub open spec fn find_char(s: Seq<char>, i: int, c: char) -> int
    decreases s.len() - i,
{
    if i >= s.len() || s[i] == c {
        if i >= s.len() { s.len() as int } else { i }
    } else {
        find_char(s, i + 1, c)
    }
}

pub proof fn lemma_find_char(s: Seq<char>, i: int, c: char)
    requires
        0 <= i <= s.len(),
    ensures
        i <= find_char(s, i, c) <= s.len(),
        find_char(s, i, c) < s.len() ==> s[find_char(s, i, c)] == c,
        forall|k: int| i <= k < find_char(s, i, c) ==> s[k] != c,
    decreases s.len() - i,
{
    if i < s.len() && s[i] != c {
        lemma_find_char(s, i + 1, c);
    }
}

/// Exec form of [`find_char`].
pub fn find_char_from(v: &[char], i: usize, c: char) -> (r: usize)
    requires
        i <= v@.len(),
    ensures
        r == find_char(v@, i as int, c),
{
    let mut k = i;
    while k < v.len() && v[k] != c
        invariant
            i <= k <= v@.len(),
            find_char(v@, k as int, c) == find_char(v@, i as int, c),
        decreases v@.len() - k,
    {
        k += 1;
    }
    k
}

/// A line without its terminating carriage return.
pub open spec fn strip_cr(line: Seq<char>) -> Seq<char> {
    if line.len() > 0 && line.last() == '\r' {
        line.drop_last()
    } else {
        line
    }
}

/// `str::lines` from position `i`: pieces split at `\n`, a `\r` before the
/// `\n` dropped, and no empty piece after a final `\n`.
pub open spec fn lines_from(s: Seq<char>, i: int) -> Seq<Seq<char>>
    decreases s.len() - i,
{
    if i < 0 || i >= s.len() {
        seq![]
    } else {
        let k = find_char(s, i, '\n');
        if k < s.len() {
            proof {
                lemma_find_char(s, i, '\n');
            }
            seq![strip_cr(s.subrange(i, k))] + lines_from(s, k + 1)
        } else {
            seq![s.subrange(i, s.len() as int)]
        }
    }
}

/// The lines of a text (`str::lines`).
pub open spec fn lines_spec(s: Seq<char>) -> Seq<Seq<char>> {
    lines_from(s, 0)
}

/// Position of the first whitespace character at or after `i`, or the length.
pub open spec fn ws_start(s: Seq<char>, i: int) -> int
    decreases s.len() - i,
{
    if i >= s.len() {
        i
    } else if is_unicode_ws(s[i]) {
        i
    } else {
        ws_start(s, i + 1)
    }
}

/// Position of the first non-whitespace character at or after `i`, or the length.
pub open spec fn ws_end(s: Seq<char>, i: int) -> int
    decreases s.len() - i,
{
    if i >= s.len() {
        i
    } else if !is_unicode_ws(s[i]) {
        i
    } else {
        ws_end(s, i + 1)
    }
}

pub proof fn lemma_ws_bounds(s: Seq<char>, i: int)
    requires
        0 <= i <= s.len(),
    ensures
        i <= ws_start(s, i) <= s.len(),
        i <= ws_end(s, i) <= s.len(),
        ws_start(s, i) < s.len() ==> is_unicode_ws(s[ws_start(s, i)]),
        ws_end(s, i) < s.len() ==> !is_unicode_ws(s[ws_end(s, i)]),
    decreases s.len() - i,
{
    if i < s.len() {
        lemma_ws_bounds(s, i + 1);
    }
}

/// `str::split_whitespace` from position `i`.
pub open spec fn words_from(s: Seq<char>, i: int) -> Seq<Seq<char>>
    decreases s.len() - i,
{
    if i < 0 || i > s.len() {
        seq![]
    } else {
        let a = ws_end(s, i);
        proof {
            lemma_ws_bounds(s, i);
        }
        if a >= s.len() {
            seq![]
        } else {
            let b = ws_start(s, a);
            proof {
                lemma_ws_bounds(s, a);
            }
            seq![s.subrange(a, b)] + words_from(s, b)
        }
    }
}

/// The whitespace-separated words of a text (`str::split_whitespace`).
pub open spec fn words_spec(s: Seq<char>) -> Seq<Seq<char>> {
    words_from(s, 0)
}

/// The lines of `v` (`str::lines`).
pub fn lines_of(v: &[char]) -> (r: Vec<Vec<char>>)
    ensures
        r@.map_values(|l: Vec<char>| l@) == lines_spec(v@),
{
    let n = v.len();
    let mut out: Vec<Vec<char>> = Vec::new();
    let mut i: usize = 0;
    assert(out@.map_values(|l: Vec<char>| l@) =~= seq![]);
    while i < n
        invariant
            n == v@.len(),
            i <= n,
            out@.map_values(|l: Vec<char>| l@) + lines_from(v@, i as int) == lines_spec(v@),
        decreases n - i,
    {
        let ghost before = out@.map_values(|l: Vec<char>| l@);
        let k = find_char_from(v, i, '\n');
        proof {
            lemma_find_char(v@, i as int, '\n');
        }
        if k < n {
            let mut end = k;
            if end > i && v[end - 1] == '\r' {
                end = end - 1;
            }
            let line = sub_chars(v, i, end);
            assert(line@ == strip_cr(v@.subrange(i as int, k as int))) by {
                if k > i && v@[k - 1] == '\r' {
                    assert(v@.subrange(i as int, k as int).drop_last() =~= v@.subrange(i as int, k - 1));
                }
            }
            out.push(line);
            assert(out@.map_values(|l: Vec<char>| l@) =~= before.push(strip_cr(v@.subrange(i as int, k as int))));
            assert(before + lines_from(v@, i as int) =~= out@.map_values(|l: Vec<char>| l@) + lines_from(v@, k + 1));
            i = k + 1;
        } else {
            let line = sub_chars(v, i, n);
            out.push(line);
            assert(out@.map_values(|l: Vec<char>| l@) =~= before.push(v@.subrange(i as int, n as int)));
            assert(before + lines_from(v@, i as int) =~= out@.map_values(|l: Vec<char>| l@));
            assert(out@.map_values(|l: Vec<char>| l@) + lines_from(v@, n as int) =~= out@.map_values(|l: Vec<char>| l@));
            i = n;
        }
    }
    assert(out@.map_values(|l: Vec<char>| l@) + lines_from(v@, i as int) =~= out@.map_values(|l: Vec<char>| l@));
    out
}

/// The whitespace-separated words of `v` (`str::split_whitespace`).
pub fn words_of(v: &[char]) -> (r: Vec<Vec<char>>)
    ensures
        r@.map_values(|w: Vec<char>| w@) == words_spec(v@),
{
    let n = v.len();
    let mut out: Vec<Vec<char>> = Vec::new();
    let mut i: usize = 0;
    assert(out@.map_values(|w: Vec<char>| w@) =~= seq![]);
    loop
        invariant
            n == v@.len(),
            i <= n,
            out@.map_values(|w: Vec<char>| w@) + words_from(v@, i as int) == words_spec(v@),
        decreases n - i,
    {
        let ghost before = out@.map_values(|w: Vec<char>| w@);
        proof {
            lemma_ws_bounds(v@, i as int);
        }
        let mut a = i;
        while a < n && unicode_ws(v[a])
            invariant
                i <= a <= n == v@.len(),
                ws_end(v@, a as int) == ws_end(v@, i as int),
            decreases n - a,
        {
            a += 1;
        }
        if a >= n {
            assert(before + words_from(v@, i as int) =~= before);
            return out;
        }
        proof {
            lemma_ws_bounds(v@, a as int);
        }
        let mut b = a;
        while b < n && !unicode_ws(v[b])
            invariant
                a <= b <= n == v@.len(),
                ws_start(v@, b as int) == ws_start(v@, a as int),
            decreases n - b,
        {
            b += 1;
        }
        out.push(sub_chars(v, a, b));
        assert(out@.map_values(|w: Vec<char>| w@) =~= before.push(v@.subrange(a as int, b as int)));
        assert(before + words_from(v@, i as int) =~= out@.map_values(|w: Vec<char>| w@) + words_from(v@, b as int));
        i = b;
    }
}

/// A copy of a list of strings.
pub fn clone_strings(v: &Vec<String>) -> (r: Vec<String>)
    ensures
        r@ == v@,
{
    let mut r: Vec<String> = Vec::new();
    for i in 0..v.len()
        invariant
            r@ == v@.take(i as int),
    {
        r.push(v[i].clone());
        assert(r@ =~= v@.take(i + 1));
    }
    assert(v@.take(v@.len() as int) =~= v@);
    r
}

/// A copy of an optional string.
pub fn clone_opt(o: &Option<String>) -> (r: Option<String>)
    ensures
        r == *o,
{
    match o {
        Some(s) => Some(s.clone()),
        None => None,
    }
}

/// Whether `p` occurs in `v` at position `at`.
pub fn occurs_at(v: &[char], at: usize, p: &[char]) -> (r: bool)
    ensures
        r == (at + p@.len() <= v@.len() && v@.subrange(at as int, at + p@.len()) == p@),
{
    if at > v.len() || p.len() > v.len() - at {
        return false;
    }
    let n = v.len();
    let mut k: usize = 0;
    while k < p.len()
        invariant
            n == v@.len(),
            at + p@.len() <= v@.len(),
            k <= p@.len(),
            forall|j: int| 0 <= j < k ==> v@[at + j] == p@[j],
        decreases p@.len() - k,
    {
        assert(at + k < v@.len());
        if v[at + k] != p[k] {
            assert(v@.subrange(at as int, at + p@.len())[k as int] != p@[k as int]);
            return false;
        }
        k += 1;
    }
    assert(v@.subrange(at as int, at + p@.len()) =~= p@);
    true
}

/// `s` with every leading `p` removed (`str::trim_start_matches` with a string).
pub open spec fn strip_prefix_all(s: Seq<char>, p: Seq<char>) -> Seq<char>
    decreases s.len(),
{
    if 0 < p.len() <= s.len() && s.take(p.len() as int) == p {
        strip_prefix_all(s.skip(p.len() as int), p)
    } else {
        s
    }
}

/// `s` with every trailing `p` removed (`str::trim_end_matches` with a string).
pub open spec fn strip_suffix_all(s: Seq<char>, p: Seq<char>) -> Seq<char>
    decreases s.len(),
{
    if 0 < p.len() <= s.len() && s.skip(s.len() - p.len()) == p {
        strip_suffix_all(s.take(s.len() - p.len()), p)
    } else {
        s
    }
}

/// Exec form of [`strip_prefix_all`].
pub fn trim_start_matches(v: &[char], p: &[char]) -> (r: Vec<char>)
    ensures
        r@ == strip_prefix_all(v@, p@),
{
    let n = v.len();
    let mut start: usize = 0;
    assert(v@.skip(0) =~= v@);
    while p.len() > 0
        invariant
            n == v@.len(),
            start <= v@.len(),
            strip_prefix_all(v@.skip(start as int), p@) == strip_prefix_all(v@, p@),
        ensures
            start <= v@.len(),
            strip_prefix_all(v@.skip(start as int), p@) == strip_prefix_all(v@, p@),
            !(p@.len() > 0 && start + p@.len() <= v@.len() && v@.subrange(start as int, start + p@.len()) == p@),
        decreases v@.len() - start,
    {
        if !occurs_at(v, start, p) {
            break;
        }
        let ghost rest = v@.skip(start as int);
        assert(rest.take(p@.len() as int) =~= v@.subrange(start as int, start + p@.len()));
        assert(rest.skip(p@.len() as int) =~= v@.skip(start + p@.len()));
        start = start + p.len();
    }
    proof {
        let rest = v@.skip(start as int);
        if 0 < p@.len() <= rest.len() {
            assert(rest.take(p@.len() as int) =~= v@.subrange(start as int, start + p@.len()));
        }
    }
    assert(v@.subrange(start as int, v@.len() as int) =~= v@.skip(start as int));
    sub_chars(v, start, v.len())
}

/// Exec form of [`strip_suffix_all`].
pub fn trim_end_matches(v: &[char], p: &[char]) -> (r: Vec<char>)
    ensures
        r@ == strip_suffix_all(v@, p@),
{
    let mut end: usize = v.len();
    assert(v@.take(end as int) =~= v@);
    while p.len() > 0 && p.len() <= end
        invariant
            end <= v@.len(),
            strip_suffix_all(v@.take(end as int), p@) == strip_suffix_all(v@, p@),
        ensures
            end <= v@.len(),
            strip_suffix_all(v@.take(end as int), p@) == strip_suffix_all(v@, p@),
            !(p@.len() > 0 && p@.len() <= end && v@.subrange(end - p@.len(), end as int) == p@),
        decreases end,
    {
        if !occurs_at(v, end - p.len(), p) {
            break;
        }
        let ghost rest = v@.take(end as int);
        assert(rest.skip(end - p@.len()) =~= v@.subrange(end - p@.len(), end as int));
        assert(rest.take(end - p@.len()) =~= v@.take(end - p@.len()));
        end = end - p.len();
    }
    proof {
        let rest = v@.take(end as int);
        if 0 < p@.len() <= rest.len() {
            assert(rest.skip(end - p@.len()) =~= v@.subrange(end - p@.len(), end as int));
        }
    }
    sub_chars(v, 0, end)
}

/// The characters of each string.
pub open spec fn views(s: Seq<String>) -> Seq<Seq<char>> {
    s.map_values(|x: String| x@)
}

/// Append copies of `items` to `out`.
pub fn extend_strings(out: &mut Vec<String>, items: &[String])
    ensures
        views(final(out)@) == views(old(out)@) + views(items@),
{
    let ghost start = out@;
    for i in 0..items.len()
        invariant
            out@ == start + items@.take(i as int),
    {
        out.push(items[i].clone());
        assert(out@ =~= start + items@.take(i + 1));
    }
    assert(items@.take(items@.len() as int) =~= items@);
    assert(views(out@) =~= views(start) + views(items@));
}

/// Whether `p` occurs in `s`.
pub open spec fn has_infix(s: Seq<char>, p: Seq<char>) -> bool {
    exists|i: int| 0 <= i && i + p.len() <= s.len() && #[trigger] s.subrange(i, i + p.len()) == p
}

/// Whether `s` starts with `p`.
pub open spec fn has_prefix(s: Seq<char>, p: Seq<char>) -> bool {
    p.len() <= s.len() && s.take(p.len() as int) == p
}

/// Whether `s` ends with `p`.
pub open spec fn has_suffix(s: Seq<char>, p: Seq<char>) -> bool {
    p.len() <= s.len() && s.skip(s.len() - p.len()) == p
}

/// Whether `p` occurs anywhere in `v`.
pub fn contains_chars(v: &[char], p: &[char]) -> (r: bool)
    ensures
        r == has_infix(v@, p@),
{
    let n = v.len();
    let mut i: usize = 0;
    while i < n
        invariant
            i <= n == v@.len(),
            forall|j: int| 0 <= j < i ==> !(j + p@.len() <= v@.len() && #[trigger] v@.subrange(j, j + p@.len()) == p@),
        decreases n - i,
    {
        if occurs_at(v, i, p) {
            return true;
        }
        i += 1;
    }
    occurs_at(v, n, p)
}

/// Whether `v` starts with `p`.
pub fn starts_with_chars(v: &[char], p: &[char]) -> (r: bool)
    ensures
        r == has_prefix(v@, p@),
{
    let r = occurs_at(v, 0, p);
    assert(p@.len() <= v@.len() ==> v@.subrange(0, p@.len() as int) =~= v@.take(p@.len() as int));
    r
}

/// Whether `c` occurs in `v`.
pub fn contains_char(v: &[char], c: char) -> (r: bool)
    ensures
        r == v@.contains(c),
{
    for i in 0..v.len()
        invariant
            forall|j: int| 0 <= j < i ==> v@[j] != c,
    {
        if v[i] == c {
            return true;
        }
    }
    false
}

} // verus!
