//! A small JSON value and its compact rendering, for `--json` output.
use vstd::prelude::*;

use crate::text::{int_digits, push_i64, push_str};

verus! {

/// A JSON value. Object fields keep the order they were given in.
#[derive(Debug)]
pub enum Json {
    Null,
    Bool(bool),
    Number(i64),
    Str(String),
    Array(Vec<Json>),
    Object(Vec<(String, Json)>),
}

/// The lowercase hexadecimal digit of `d < 16`.
pub open spec fn hex_digit(d: u32) -> char {
    if d < 10 {
        ((48 + d) as u8) as char
    } else {
        ((87 + d) as u8) as char
    }
}

/// How one character is written inside a JSON string.
pub open spec fn escape_char(c: char) -> Seq<char> {
    if c == '"' {
        seq!['\\', '"']
    } else if c == '\\' {
        seq!['\\', '\\']
    } else if c == '\n' {
        seq!['\\', 'n']
    } else if c == '\r' {
        seq!['\\', 'r']
    } else if c == '\t' {
        seq!['\\', 't']
    } else if c == '\x08' {
        seq!['\\', 'b']
    } else if c == '\x0C' {
        seq!['\\', 'f']
    } else if (c as u32) < 0x20 {
        seq!['\\', 'u', '0', '0', hex_digit((c as u32) / 16), hex_digit((c as u32) % 16)]
    } else {
        seq![c]
    }
}

/// The characters of `s` escaped for a JSON string.
pub open spec fn escaped(s: Seq<char>) -> Seq<char>
    decreases s.len(),
{
    if s.len() == 0 {
        seq![]
    } else {
        escaped(s.drop_last()) + escape_char(s.last())
    }
}

/// `s` as a JSON string literal.
pub open spec fn quoted(s: Seq<char>) -> Seq<char> {
    seq!['"'] + escaped(s) + seq!['"']
}

/// The compact text of a JSON value.
pub open spec fn json_text(j: Json) -> Seq<char>
    decreases j,
{
    match j {
        Json::Null => seq!['n', 'u', 'l', 'l'],
        Json::Bool(b) => if b {
            seq!['t', 'r', 'u', 'e']
        } else {
            seq!['f', 'a', 'l', 's', 'e']
        },
        Json::Number(n) => int_digits(n as int),
        Json::Str(s) => quoted(s@),
        Json::Array(items) => seq!['['] + items_text(items@) + seq![']'],
        Json::Object(fields) => seq!['{'] + fields_text(fields@) + seq!['}'],
    }
}

/// Array items, separated by commas.
pub open spec fn items_text(s: Seq<Json>) -> Seq<char>
    decreases s,
{
    if s.len() == 0 {
        seq![]
    } else if s.len() == 1 {
        json_text(s[0])
    } else {
        items_text(s.drop_last()) + seq![','] + json_text(s.last())
    }
}

/// Object fields as `"key":value`, separated by commas.
pub open spec fn fields_text(s: Seq<(String, Json)>) -> Seq<char>
    decreases s,
{
    if s.len() == 0 {
        seq![]
    } else if s.len() == 1 {
        quoted(s[0].0@) + seq![':'] + json_text(s[0].1)
    } else {
        fields_text(s.drop_last()) + seq![','] + quoted(s.last().0@) + seq![':'] + json_text(s.last().1)
    }
}

fn hex(d: u32) -> (c: char)
    requires
        d < 16,
    ensures
        c == hex_digit(d),
{
    let small = d as u8;
    if d < 10 {
        (48 + small) as char
    } else {
        (87 + small) as char
    }
}

/// Append `escaped(s)`.
fn push_escaped(out: &mut String, s: &str)
    ensures
        final(out)@ == old(out)@ + escaped(s@),
{
    let ghost start = out@;
    assert(s@.take(0) =~= seq![]);
    for c in iter: s.chars()
        invariant
            iter.seq() == s@,
            out@ == start + escaped(s@.take(iter.index() as int)),
    {
        let ghost k = iter.index();
        assert(s@.take(k + 1).drop_last() =~= s@.take(k as int));
        if c == '"' {
            out.push('\\');
            out.push('"');
        } else if c == '\\' {
            out.push('\\');
            out.push('\\');
        } else if c == '\n' {
            out.push('\\');
            out.push('n');
        } else if c == '\r' {
            out.push('\\');
            out.push('r');
        } else if c == '\t' {
            out.push('\\');
            out.push('t');
        } else if c == '\x08' {
            out.push('\\');
            out.push('b');
        } else if c == '\x0C' {
            out.push('\\');
            out.push('f');
        } else if (c as u32) < 0x20 {
            out.push('\\');
            out.push('u');
            out.push('0');
            out.push('0');
            out.push(hex((c as u32) / 16));
            out.push(hex((c as u32) % 16));
        } else {
            out.push(c);
        }
        assert(out@ =~= start + escaped(s@.take(k + 1)));
    }
    assert(s@.take(s@.len() as int) =~= s@);
}

/// Append `quoted(s)`.
fn push_quoted(out: &mut String, s: &str)
    ensures
        final(out)@ == old(out)@ + quoted(s@),
{
    let ghost start = out@;
    out.push('"');
    push_escaped(out, s);
    out.push('"');
    assert(out@ =~= start + quoted(s@));
}

impl Json {
    /// A JSON string.
    pub fn str(s: &str) -> (j: Json)
        ensures
            j matches Json::Str(t) && t@ == s@,
    {
        Json::Str(s.to_owned())
    }

    /// Append the compact text of this value.
    fn render_into(&self, out: &mut String)
        ensures
            final(out)@ == old(out)@ + json_text(*self),
        decreases self,
    {
        let ghost start = out@;
        match self {
            Json::Null => {
                push_str(out, "null");
                proof {
                    reveal_strlit("null");
                }
                assert(out@ =~= start + json_text(*self));
            },
            Json::Bool(b) => {
                if *b {
                    push_str(out, "true");
                    proof {
                        reveal_strlit("true");
                    }
                } else {
                    push_str(out, "false");
                    proof {
                        reveal_strlit("false");
                    }
                }
                assert(out@ =~= start + json_text(*self));
            },
            Json::Number(n) => {
                push_i64(out, *n);
            },
            Json::Str(s) => {
                push_quoted(out, s.as_str());
            },
            Json::Array(items) => {
                out.push('[');
                for i in 0..items.len()
                    invariant
                        out@ == start + seq!['['] + items_text(items@.take(i as int)),
                        *self == Json::Array(*items),
                {
                    assert((*self) is Array);
                    assert(decreases_to!(*self => (*self)->Array_0));
                    assert(decreases_to!(*items => items@));
                    assert(decreases_to!(items@ => items@[i as int]));
                    if i > 0 {
                        out.push(',');
                    }
                    items[i].render_into(out);
                    assert(items@.take(i + 1).drop_last() =~= items@.take(i as int));
                    assert(out@ =~= start + seq!['['] + items_text(items@.take(i + 1)));
                }
                out.push(']');
                assert(items@.take(items@.len() as int) =~= items@);
                assert(out@ =~= start + json_text(*self));
            },
            Json::Object(fields) => {
                out.push('{');
                for i in 0..fields.len()
                    invariant
                        out@ == start + seq!['{'] + fields_text(fields@.take(i as int)),
                        *self == Json::Object(*fields),
                {
                    assert((*self) is Object);
                    assert(decreases_to!(*self => (*self)->Object_0));
                    assert(decreases_to!(*fields => fields@));
                    assert(decreases_to!(fields@ => fields@[i as int]));
                    assert(decreases_to!(fields@[i as int] => fields@[i as int].1));
                    if i > 0 {
                        out.push(',');
                    }
                    push_quoted(out, fields[i].0.as_str());
                    out.push(':');
                    fields[i].1.render_into(out);
                    assert(fields@.take(i + 1).drop_last() =~= fields@.take(i as int));
                    assert(out@ =~= start + seq!['{'] + fields_text(fields@.take(i + 1)));
                }
                out.push('}');
                assert(fields@.take(fields@.len() as int) =~= fields@);
                assert(out@ =~= start + json_text(*self));
            },
        }
    }

    /// The compact text of this value.
    pub fn render(&self) -> (r: String)
        ensures
            r@ == json_text(*self),
    {
        let mut out = String::new();
        self.render_into(&mut out);
        out
    }
}

} // verus!
