//! The document grammar as spec functions over the characters of the text.
//! Positions are character indices; every failure names the character that
//! the grammar could not accept.
use vstd::prelude::*;
use crate::value::{Json, ParseError};

verus! {

/// Containers may be nested this many levels deep.
pub const MAX_DEPTH: u32 = 20;

/// Whether std's `char::is_alphabetic` holds of a character (the Unicode
/// derived property Alphabetic).
pub uninterp spec fn alphabetic(c: char) -> bool;

pub open spec fn is_ws(c: char) -> bool {
    c == ' ' || c == '\t' || c == '\n' || c == '\r'
}

pub open spec fn is_digit(c: char) -> bool {
    '0' <= c <= '9'
}

pub open spec fn is_hex(c: char) -> bool {
    is_digit(c) || ('a' <= c <= 'f') || ('A' <= c <= 'F')
}

pub open spec fn hex_value(c: char) -> int {
    if is_digit(c) {
        c as int - '0' as int
    } else if 'a' <= c <= 'f' {
        c as int - 'a' as int + 10
    } else {
        c as int - 'A' as int + 10
    }
}

/// Letters that may make up a bare word: ASCII letters, and beyond ASCII
/// whatever Unicode counts as alphabetic.
pub open spec fn is_word_char(c: char) -> bool {
    if (c as u32) < 128 {
        ('a' <= c <= 'z') || ('A' <= c <= 'Z')
    } else {
        alphabetic(c)
    }
}

pub open spec fn ws_len(s: Seq<char>, i: int) -> nat
    decreases s.len() - i,
{
    if 0 <= i < s.len() && is_ws(s[i]) {
        1 + ws_len(s, i + 1)
    } else {
        0
    }
}

pub open spec fn digits_len(s: Seq<char>, i: int) -> nat
    decreases s.len() - i,
{
    if 0 <= i < s.len() && is_digit(s[i]) {
        1 + digits_len(s, i + 1)
    } else {
        0
    }
}

pub open spec fn word_len(s: Seq<char>, i: int) -> nat
    decreases s.len() - i,
{
    if 0 <= i < s.len() && is_word_char(s[i]) {
        1 + word_len(s, i + 1)
    } else {
        0
    }
}

pub open spec fn unexpected(p: int) -> ParseError {
    ParseError::UnexpectedToken(p as usize)
}

/// What a one-letter escape stands for, if the letter is one.
pub open spec fn escaped_char(e: char) -> Option<char> {
    if e == '"' {
        Some('"')
    } else if e == '\\' {
        Some('\\')
    } else if e == '/' {
        Some('/')
    } else if e == 'b' {
        Some('\u{8}')
    } else if e == 'f' {
        Some('\u{c}')
    } else if e == 'n' {
        Some('\n')
    } else if e == 'r' {
        Some('\r')
    } else if e == 't' {
        Some('\t')
    } else {
        None
    }
}

/// The value of `count` hexadecimal digits from `p`, added to `acc * 16^count`.
pub open spec fn hex_code(s: Seq<char>, p: int, count: nat, acc: int) -> Result<int, ParseError>
    decreases count,
{
    if count == 0 {
        Ok(acc)
    } else if p >= s.len() {
        Err(ParseError::UnexpectedEndOfInput)
    } else if !is_hex(s[p]) {
        Err(unexpected(p))
    } else {
        hex_code(s, p + 1, (count - 1) as nat, acc * 16 + hex_value(s[p]))
    }
}

/// A code point that is a `char`: at most 0x10FFFF and no surrogate.
pub open spec fn is_scalar(code: int) -> bool {
    0 <= code <= 0x10FFFF && !(0xD800 <= code <= 0xDFFF)
}

pub open spec fn code_of(c: char) -> int {
    c as u32 as int
}

pub open spec fn char_of(code: int) -> char {
    choose|c: char| #[trigger] code_of(c) == code
}

/// The characters of a string from `i` (just past the opening quote) on,
/// appended to `acc`, and the position past the closing quote.
pub open spec fn string_rest(s: Seq<char>, i: int, acc: Seq<char>) -> Result<
    (Seq<char>, int),
    ParseError,
>
    decreases s.len() + 8 - i,
{
    if i < 0 || i >= s.len() {
        Err(ParseError::UnexpectedEndOfInput)
    } else {
        let c = s[i];
        if c == '"' {
            Ok((acc, i + 1))
        } else if c == '\t' || c == '\n' || c == '\r' {
            Err(unexpected(i))
        } else if c == '\\' {
            if i + 1 >= s.len() {
                Err(ParseError::UnexpectedEndOfInput)
            } else if s[i + 1] == 'u' {
                match hex_code(s, i + 2, 4, 0) {
                    Err(e) => Err(e),
                    Ok(code) => if is_scalar(code) {
                        string_rest(s, i + 6, acc.push(char_of(code)))
                    } else {
                        Err(unexpected(i))
                    },
                }
            } else {
                match escaped_char(s[i + 1]) {
                    Some(m) => string_rest(s, i + 2, acc.push(m)),
                    None => Err(unexpected(i + 1)),
                }
            }
        } else {
            string_rest(s, i + 1, acc.push(c))
        }
    }
}

/// A quoted string at `i`: its characters and how many characters it spans.
pub open spec fn string_token(s: Seq<char>, i: int) -> Result<(Seq<char>, nat), ParseError> {
    if i >= s.len() {
        Err(ParseError::UnexpectedEndOfInput)
    } else if s[i] != '"' {
        Err(unexpected(i))
    } else {
        match string_rest(s, i + 1, Seq::empty()) {
            Ok((t, e)) => Ok((t, (e - i) as nat)),
            Err(x) => Err(x),
        }
    }
}

/// One or more digits at `q`; the position past them.
pub open spec fn digits_after(s: Seq<char>, q: int) -> Result<int, ParseError> {
    if digits_len(s, q) > 0 {
        Ok(q + digits_len(s, q))
    } else if q >= s.len() {
        Err(ParseError::UnexpectedEndOfInput)
    } else {
        Err(unexpected(q))
    }
}

pub open spec fn has_fraction(s: Seq<char>, p: int) -> bool {
    0 <= p < s.len() && s[p] == '.'
}

pub open spec fn fraction_end(s: Seq<char>, p: int) -> Result<int, ParseError> {
    if has_fraction(s, p) {
        digits_after(s, p + 1)
    } else {
        Ok(p)
    }
}

pub open spec fn exponent_end(s: Seq<char>, p: int) -> Result<int, ParseError> {
    if 0 <= p < s.len() && (s[p] == 'e' || s[p] == 'E') {
        if p + 1 < s.len() && (s[p + 1] == '+' || s[p + 1] == '-') {
            digits_after(s, p + 2)
        } else {
            digits_after(s, p + 1)
        }
    } else {
        Ok(p)
    }
}

/// A number at `i`: its text and how many characters it spans.
pub open spec fn number_token(s: Seq<char>, i: int) -> Result<(Seq<char>, nat), ParseError> {
    let digits_at = if 0 <= i < s.len() && s[i] == '-' {
        i + 1
    } else {
        i
    };
    if digits_at < 0 || digits_at >= s.len() || !is_digit(s[digits_at]) {
        Err(unexpected(digits_at))
    } else {
        let int_end = digits_at + digits_len(s, digits_at);
        match fraction_end(s, int_end) {
            Err(e) => Err(e),
            Ok(frac_end) => match exponent_end(s, frac_end) {
                Err(e) => Err(e),
                Ok(num_end) => if !has_fraction(s, int_end) && digits_len(s, digits_at) > 1 && s[digits_at] == '0' {
                    Err(ParseError::LeadingZero(num_end as usize))
                } else {
                    Ok((s.subrange(i, num_end), (num_end - i) as nat))
                },
            },
        }
    }
}

/// `true`, `false` or `null` at `i`, read as a maximal run of letters.
pub open spec fn literal_token(s: Seq<char>, i: int) -> Result<(Json, nat), ParseError> {
    let n = word_len(s, i);
    let w = s.subrange(i, i + n);
    if w == seq!['t', 'r', 'u', 'e'] {
        Ok((Json::Boolean(true), n))
    } else if w == seq!['f', 'a', 'l', 's', 'e'] {
        Ok((Json::Boolean(false), n))
    } else if w == seq!['n', 'u', 'l', 'l'] {
        Ok((Json::Null, n))
    } else {
        Err(unexpected(i))
    }
}

pub open spec fn has_key(m: Seq<(Seq<char>, Json)>, k: Seq<char>) -> bool {
    exists|i: int| 0 <= i < m.len() && m[i].0 == k
}

/// A member added to an object: a key seen before keeps its place and takes
/// the new value; a new key goes last.
pub open spec fn insert_member(m: Seq<(Seq<char>, Json)>, k: Seq<char>, v: Json) -> Seq<
    (Seq<char>, Json),
> {
    if has_key(m, k) {
        m.update(choose|i: int| 0 <= i < m.len() && m[i].0 == k, (k, v))
    } else {
        m.push((k, v))
    }
}

/// A value at `i` (whitespace first) at nesting `depth`: the value and how
/// many characters it spans.
pub open spec fn value_at(s: Seq<char>, i: int, depth: int) -> Result<(Json, nat), ParseError>
    decreases s.len() - i, 1int,
{
    let w = ws_len(s, i);
    let j = i + w;
    if j < 0 || j >= s.len() {
        Err(ParseError::UnexpectedEndOfInput)
    } else {
        let c = s[j];
        if c == '{' {
            match object_at(s, j, depth) {
                Ok((v, e)) => Ok((v, (e - i) as nat)),
                Err(x) => Err(x),
            }
        } else if c == '[' {
            match array_at(s, j, depth) {
                Ok((v, e)) => Ok((v, (e - i) as nat)),
                Err(x) => Err(x),
            }
        } else if c == '"' {
            match string_token(s, j) {
                Ok((t, n)) => Ok((Json::Str(t), w + n)),
                Err(x) => Err(x),
            }
        } else if c == 't' || c == 'f' || c == 'n' {
            match literal_token(s, j) {
                Ok((v, n)) => Ok((v, w + n)),
                Err(x) => Err(x),
            }
        } else if is_digit(c) || c == '-' {
            match number_token(s, j) {
                Ok((t, n)) => Ok((Json::Number(t), w + n)),
                Err(x) => Err(x),
            }
        } else {
            Err(unexpected(j))
        }
    }
}

/// An object whose `{` stands at `j`: the object and the position past its `}`.
pub open spec fn object_at(s: Seq<char>, j: int, depth: int) -> Result<(Json, int), ParseError>
    decreases s.len() - j, 0int,
{
    if depth >= MAX_DEPTH {
        Err(ParseError::MaxDepthExceeded(j as usize))
    } else {
        let k = j + 1 + ws_len(s, j + 1);
        if k >= s.len() {
            Err(ParseError::UnexpectedEndOfInput)
        } else if s[k] == '}' {
            Ok((Json::Object(Seq::empty()), k + 1))
        } else {
            members_at(s, k, depth, Seq::empty())
        }
    }
}

/// The members of an object from the key at `k` on, added to `acc`.
pub open spec fn members_at(
    s: Seq<char>,
    k: int,
    depth: int,
    acc: Seq<(Seq<char>, Json)>,
) -> Result<(Json, int), ParseError>
    decreases s.len() - k, 2int,
{
    match string_token(s, k) {
        Err(e) => Err(e),
        Ok((key, n)) => {
            let k1 = k + n;
            let k2 = k1 + ws_len(s, k1);
            if k2 >= s.len() {
                Err(ParseError::UnexpectedEndOfInput)
            } else if s[k2] != ':' {
                Err(unexpected(k2))
            } else {
                match value_at(s, k2 + 1, depth + 1) {
                    Err(e) => Err(e),
                    Ok((v, n2)) => {
                        let acc2 = insert_member(acc, key, v);
                        let k3 = k2 + 1 + n2;
                        let k4 = k3 + ws_len(s, k3);
                        if k4 >= s.len() {
                            Err(ParseError::UnexpectedEndOfInput)
                        } else if s[k4] == '}' {
                            Ok((Json::Object(acc2), k4 + 1))
                        } else if s[k4] == ',' {
                            let k5 = k4 + 1 + ws_len(s, k4 + 1);
                            if k5 >= s.len() {
                                Err(ParseError::UnexpectedEndOfInput)
                            } else if s[k5] == '}' {
                                Err(ParseError::TrailingComma(k5 as usize))
                            } else {
                                members_at(s, k5, depth, acc2)
                            }
                        } else {
                            Err(ParseError::UnexpectedEndOfInput)
                        }
                    },
                }
            }
        },
    }
}

/// An array whose `[` stands at `j`: the array and the position past its `]`.
pub open spec fn array_at(s: Seq<char>, j: int, depth: int) -> Result<(Json, int), ParseError>
    decreases s.len() - j, 0int,
{
    if depth >= MAX_DEPTH {
        Err(ParseError::MaxDepthExceeded(j as usize))
    } else {
        let k = j + 1 + ws_len(s, j + 1);
        if k >= s.len() {
            Err(ParseError::UnexpectedEndOfInput)
        } else if s[k] == ']' {
            Ok((Json::Array(Seq::empty()), k + 1))
        } else {
            elements_at(s, k, depth, Seq::empty())
        }
    }
}

/// The elements of an array from the one at `k` on, added to `acc`.
pub open spec fn elements_at(s: Seq<char>, k: int, depth: int, acc: Seq<Json>) -> Result<
    (Json, int),
    ParseError,
>
    decreases s.len() - k, 2int,
{
    if k < 0 || k >= s.len() {
        Err(ParseError::UnexpectedEndOfInput)
    } else {
        match value_at(s, k, depth + 1) {
            Err(e) => Err(e),
            Ok((v, n)) => {
                let acc2 = acc.push(v);
                let k1 = k + n;
                let k2 = k1 + ws_len(s, k1);
                if k2 >= s.len() {
                    Err(ParseError::UnexpectedEndOfInput)
                } else if s[k2] == ']' {
                    Ok((Json::Array(acc2), k2 + 1))
                } else if s[k2] == ',' {
                    let k3 = k2 + 1 + ws_len(s, k2 + 1);
                    if k3 >= s.len() {
                        Err(ParseError::UnexpectedEndOfInput)
                    } else if s[k3] == ']' {
                        Err(ParseError::TrailingComma(k3 as usize))
                    } else {
                        elements_at(s, k3, depth, acc2)
                    }
                } else {
                    Err(ParseError::UnexpectedEndOfInput)
                }
            },
        }
    }
}

/// A whole document: an object or an array, with only whitespace around it.
pub open spec fn document(s: Seq<char>) -> Result<Json, ParseError> {
    let j = ws_len(s, 0) as int;
    if j >= s.len() {
        Err(ParseError::UnexpectedEndOfInput)
    } else {
        let r = if s[j] == '{' {
            object_at(s, j, 0)
        } else if s[j] == '[' {
            array_at(s, j, 0)
        } else {
            Err(unexpected(j))
        };
        match r {
            Err(e) => Err(e),
            Ok((v, e)) => {
                let f = e + ws_len(s, e);
                if f < s.len() {
                    Err(unexpected(f))
                } else {
                    Ok(v)
                }
            },
        }
    }
}

} // verus!
