//! Writing a document back as text.
use vstd::prelude::*;
use crate::value::{Json, JsonValue, elements_view, members_view};
use crate::parser::{push_char, chars_of};
use crate::grammar::code_of;

verus! {

/// The lower-case hexadecimal digit of `n`, for `0 <= n < 16`.
pub open spec fn hex_char(n: int) -> char {
    if n == 0 {
        '0'
    } else if n == 1 {
        '1'
    } else if n == 2 {
        '2'
    } else if n == 3 {
        '3'
    } else if n == 4 {
        '4'
    } else if n == 5 {
        '5'
    } else if n == 6 {
        '6'
    } else if n == 7 {
        '7'
    } else if n == 8 {
        '8'
    } else if n == 9 {
        '9'
    } else if n == 10 {
        'a'
    } else if n == 11 {
        'b'
    } else if n == 12 {
        'c'
    } else if n == 13 {
        'd'
    } else if n == 14 {
        'e'
    } else {
        'f'
    }
}

/// A control character: below U+0020, or U+007F.
pub open spec fn is_control(c: char) -> bool {
    (c as u32) < 0x20 || c == '\u{7f}'
}

/// How a character of a string is written between quotes: a quote and a
/// backslash are escaped, control characters with a one-letter escape take
/// it, and the other control characters are written as `\u00XX`.
pub open spec fn escape(c: char) -> Seq<char> {
    if c == '"' {
        seq!['\\', '"']
    } else if c == '\\' {
        seq!['\\', '\\']
    } else if c == '\n' {
        seq!['\\', 'n']
    } else if c == '\r' {
        seq!['\\', 'r']
    } else if c == '\t' {
        seq!['\\', 't']
    } else if c == '\u{8}' {
        seq!['\\', 'b']
    } else if c == '\u{c}' {
        seq!['\\', 'f']
    } else if is_control(c) {
        seq!['\\', 'u', '0', '0', hex_char(code_of(c) / 16), hex_char(code_of(c) % 16)]
    } else {
        seq![c]
    }
}

pub open spec fn escaped(t: Seq<char>) -> Seq<char>
    decreases t.len(),
{
    if t.len() == 0 {
        Seq::empty()
    } else {
        escaped(t.drop_last()) + escape(t.last())
    }
}

pub open spec fn quoted(t: Seq<char>) -> Seq<char> {
    seq!['"'] + escaped(t) + seq!['"']
}

pub open spec fn separator() -> Seq<char> {
    seq![',', ' ']
}

/// The text of a value: scalars as they are read, containers with `", "`
/// between items and `": "` after each key.
pub open spec fn text_of(v: Json) -> Seq<char>
    decreases v,
{
    match v {
        Json::Null => seq!['n', 'u', 'l', 'l'],
        Json::Boolean(b) => if b {
            seq!['t', 'r', 'u', 'e']
        } else {
            seq!['f', 'a', 'l', 's', 'e']
        },
        Json::Number(t) => t,
        Json::Str(t) => quoted(t),
        Json::Array(a) => seq!['['] + join_elements(a) + seq![']'],
        Json::Object(m) => seq!['{'] + join_members(m) + seq!['}'],
    }
}

pub open spec fn join_elements(a: Seq<Json>) -> Seq<char>
    decreases a,
{
    if a.len() == 0 {
        Seq::empty()
    } else if a.len() == 1 {
        text_of(a[0])
    } else {
        join_elements(a.subrange(0, a.len() - 1)) + separator() + text_of(a[a.len() - 1])
    }
}

pub open spec fn member_text(p: (Seq<char>, Json)) -> Seq<char>
    decreases p,
{
    quoted(p.0) + seq![':', ' '] + text_of(p.1)
}

pub open spec fn join_members(m: Seq<(Seq<char>, Json)>) -> Seq<char>
    decreases m,
{
    if m.len() == 0 {
        Seq::empty()
    } else if m.len() == 1 {
        member_text(m[0])
    } else {
        join_members(m.subrange(0, m.len() - 1)) + separator() + member_text(m[m.len() - 1])
    }
}

fn hex_char_of(n: u32) -> (r: char)
    requires
        n < 16,
    ensures
        r == hex_char(n as int),
{
    if n == 0 {
        '0'
    } else if n == 1 {
        '1'
    } else if n == 2 {
        '2'
    } else if n == 3 {
        '3'
    } else if n == 4 {
        '4'
    } else if n == 5 {
        '5'
    } else if n == 6 {
        '6'
    } else if n == 7 {
        '7'
    } else if n == 8 {
        '8'
    } else if n == 9 {
        '9'
    } else if n == 10 {
        'a'
    } else if n == 11 {
        'b'
    } else if n == 12 {
        'c'
    } else if n == 13 {
        'd'
    } else if n == 14 {
        'e'
    } else {
        'f'
    }
}

fn write_chars(out: &mut String, cs: &Vec<char>)
    ensures
        final(out)@ == old(out)@ + cs@,
{
    let mut i: usize = 0;
    while i < cs.len()
        invariant
            i <= cs@.len(),
            out@ == old(out)@ + cs@.subrange(0, i as int),
        decreases cs.len() - i,
    {
        push_char(out, cs[i]);
        assert(cs@.subrange(0, i + 1) == cs@.subrange(0, i as int).push(cs@[i as int]));
        i = i + 1;
    }
    assert(cs@.subrange(0, cs@.len() as int) == cs@);
}

fn write_two(out: &mut String, a: char, b: char)
    ensures
        final(out)@ == old(out)@ + seq![a, b],
{
    push_char(out, a);
    push_char(out, b);
    assert(old(out)@.push(a).push(b) =~= old(out)@ + seq![a, b]);
}

fn write_quoted(out: &mut String, t: &String)
    ensures
        final(out)@ == old(out)@ + quoted(t@),
{
    let cs = chars_of(t.as_str());
    push_char(out, '"');
    let ghost start = out@;
    let mut i: usize = 0;
    while i < cs.len()
        invariant
            i <= cs@.len(),
            cs@ == t@,
            start == old(out)@.push('"'),
            out@ == start + escaped(cs@.subrange(0, i as int)),
        decreases cs.len() - i,
    {
        let c = cs[i];
        let ghost before = out@;
        if c == '"' {
            write_two(out, '\\', '"');
        } else if c == '\\' {
            write_two(out, '\\', '\\');
        } else if c == '\n' {
            write_two(out, '\\', 'n');
        } else if c == '\r' {
            write_two(out, '\\', 'r');
        } else if c == '\t' {
            write_two(out, '\\', 't');
        } else if c == '\u{8}' {
            write_two(out, '\\', 'b');
        } else if c == '\u{c}' {
            write_two(out, '\\', 'f');
        } else if (c as u32) < 0x20 || c == '\u{7f}' {
            let code = c as u32;
            write_two(out, '\\', 'u');
            write_two(out, '0', '0');
            write_two(out, hex_char_of(code / 16), hex_char_of(code % 16));
            assert(out@ =~= before + escape(c));
        } else {
            push_char(out, c);
            assert(before.push(c) =~= before + seq![c]);
        }
        let ghost p = cs@.subrange(0, i + 1);
        assert(p.drop_last() == cs@.subrange(0, i as int));
        assert(out@ == before + escape(c));
        assert(escaped(p) == escaped(cs@.subrange(0, i as int)) + escape(c));
        assert(out@ =~= start + escaped(p));
        i = i + 1;
    }
    assert(cs@.subrange(0, cs@.len() as int) == cs@);
    push_char(out, '"');
    assert(out@ =~= old(out)@ + quoted(t@));
}

fn write_value(v: &JsonValue, out: &mut String)
    ensures
        final(out)@ == old(out)@ + text_of(v@),
    decreases v,
{
    match v {
        JsonValue::Null => {
            write_two(out, 'n', 'u');
            write_two(out, 'l', 'l');
            assert(out@ =~= old(out)@ + text_of(v@));
        },
        JsonValue::Boolean(b) => {
            if *b {
                write_two(out, 't', 'r');
                write_two(out, 'u', 'e');
            } else {
                write_two(out, 'f', 'a');
                write_two(out, 'l', 's');
                push_char(out, 'e');
            }
            assert(out@ =~= old(out)@ + text_of(v@));
        },
        JsonValue::Number(t) => {
            let cs = chars_of(t.as_str());
            write_chars(out, &cs);
        },
        JsonValue::String(t) => {
            write_quoted(out, t);
        },
        JsonValue::Array(a) => {
            let ghost xs = elements_view(a@);
            push_char(out, '[');
            let ghost start = out@;
            let mut i: usize = 0;
            while i < a.len()
                invariant
                    i <= a@.len(),
                    xs == elements_view(a@),
                    v@ == Json::Array(xs),
                    *v == JsonValue::Array(*a),
                    start == old(out)@.push('['),
                    out@ == start + join_elements(xs.subrange(0, i as int)),
                decreases a.len() - i,
            {
                let ghost before = out@;
                if i > 0 {
                    write_two(out, ',', ' ');
                }
                proof {
                    let w = v->Array_0;
                    vstd::std_specs::vec::axiom_vec_index_decreases(w, i as int);
                    assert(decreases_to!(*v => v->Array_0));
                    assert(decreases_to!(w => w[i as int]));
                    assert(decreases_to!(*v => w[i as int]));
                }
                write_value(&a[i], out);
                let ghost p = xs.subrange(0, i + 1);
                assert(p.subrange(0, i as int) == xs.subrange(0, i as int));
                assert(p[i as int] == a@[i as int]@);
                if i == 0 {
                    assert(join_elements(xs.subrange(0, 0)) == Seq::<char>::empty());
                    assert(out@ =~= start + join_elements(p));
                } else {
                    assert(out@ =~= start + join_elements(p));
                }
                i = i + 1;
            }
            assert(xs.subrange(0, xs.len() as int) == xs);
            push_char(out, ']');
            assert(out@ =~= old(out)@ + text_of(v@));
        },
        JsonValue::Object(m) => {
            let ghost xs = members_view(m@);
            push_char(out, '{');
            let ghost start = out@;
            let mut i: usize = 0;
            while i < m.len()
                invariant
                    i <= m@.len(),
                    xs == members_view(m@),
                    v@ == Json::Object(xs),
                    *v == JsonValue::Object(*m),
                    start == old(out)@.push('{'),
                    out@ == start + join_members(xs.subrange(0, i as int)),
                decreases m.len() - i,
            {
                let ghost before = out@;
                if i > 0 {
                    write_two(out, ',', ' ');
                }
                let ghost mid = out@;
                write_quoted(out, &m[i].0);
                write_two(out, ':', ' ');
                proof {
                    let w = v->Object_0;
                    vstd::std_specs::vec::axiom_vec_index_decreases(w, i as int);
                    assert(decreases_to!(*v => v->Object_0));
                    assert(decreases_to!(w => w[i as int]));
                    assert(decreases_to!(w[i as int] => w[i as int].1));
                    assert(decreases_to!(*v => w[i as int].1));
                }
                write_value(&m[i].1, out);
                let ghost p = xs.subrange(0, i + 1);
                assert(p.subrange(0, i as int) == xs.subrange(0, i as int));
                assert(p[i as int] == (m@[i as int].0@, m@[i as int].1@));
                assert(out@ =~= mid + member_text(p[i as int]));
                if i == 0 {
                    assert(join_members(xs.subrange(0, 0)) == Seq::<char>::empty());
                    assert(out@ =~= start + join_members(p));
                } else {
                    assert(out@ =~= start + join_members(p));
                }
                i = i + 1;
            }
            assert(xs.subrange(0, xs.len() as int) == xs);
            push_char(out, '}');
            assert(out@ =~= old(out)@ + text_of(v@));
        },
    }
}

impl JsonValue {
    /// The text of the value.
    pub fn to_string(&self) -> (r: String)
        ensures
            r@ == text_of(self@),
    {
        let mut out = String::new();
        write_value(self, &mut out);
        assert(out@ =~= text_of(self@));
        out
    }
}

/// The text of a value.
pub fn serialize(v: &JsonValue) -> (r: String)
    ensures
        r@ == text_of(v@),
{
    v.to_string()
}

} // verus!
