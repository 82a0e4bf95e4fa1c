//! The recursive-descent parser: a cursor over the characters of the text,
//! and one procedure for each production of the grammar.
use vstd::prelude::*;
use indexmap::IndexMap;
use crate::grammar::{
    MAX_DEPTH, alphabetic, is_ws, is_digit, is_hex, hex_value, is_word_char, ws_len, digits_len,
    word_len, unexpected, escaped_char, hex_code, is_scalar, char_of, string_rest, string_token,
    digits_after, number_token, literal_token, has_key, insert_member, value_at, object_at,
    members_at, array_at, elements_at, document,
};
use crate::value::{Json, JsonValue, ParseError, elements_view, members_view};

verus! {

/// indexmap's `IndexMap`, which keeps keys in order of first insertion;
/// an object's keys are indexed in one while it is read.
#[verifier::external_type_specification]
#[verifier::external_body]
#[verifier::reject_recursive_types(K)]
#[verifier::reject_recursive_types(V)]
#[verifier::reject_recursive_types(S)]
pub struct ExIndexMap<K, V, S>(IndexMap<K, V, S>);

/// The keys of an index map, in the map's order.
pub uninterp spec fn key_order(m: IndexMap<String, ()>) -> Seq<Seq<char>>;

/// Relies on `IndexMap::new`: a new map holds no keys.
#[verifier::external_body]
fn new_key_index() -> (r: IndexMap<String, ()>)
    ensures
        key_order(r) == Seq::<Seq<char>>::empty(),
{
    IndexMap::new()
}

/// Relies on `IndexMap::insert_full`: a key that is already there keeps its
/// place, and its index comes back with `Some`; a new key goes last, and its
/// index comes back with `None`.
#[verifier::external_body]
fn key_index_insert(m: &mut IndexMap<String, ()>, k: String) -> (r: (usize, Option<()>))
    ensures
        key_order(*old(m)).contains(k@) ==> r.1 is Some && r.0 < key_order(*old(m)).len()
            && key_order(*old(m))[r.0 as int] == k@ && key_order(*final(m)) == key_order(
            *old(m),
        ),
        !key_order(*old(m)).contains(k@) ==> r.1 is None && r.0 == key_order(*old(m)).len()
            && key_order(*final(m)) == key_order(*old(m)).push(k@),
{
    m.insert_full(k, ())
}

/// Relies on `str::chars`: the characters of the text, in order.
#[verifier::external_body]
pub(crate) fn chars_of(text: &str) -> (r: Vec<char>)
    ensures
        r@ == text@,
{
    text.chars().collect()
}

/// Relies on `String::push`: the character is appended.
#[verifier::external_body]
pub(crate) fn push_char(s: &mut String, c: char)
    ensures
        final(s)@ == old(s)@.push(c),
{
    s.push(c)
}

/// Relies on `char::is_alphabetic`.
#[verifier::external_body]
fn is_alphabetic(c: char) -> (r: bool)
    ensures
        r == alphabetic(c),
{
    c.is_alphabetic()
}

/// Relies on `char::from_u32`: `Some` exactly for the code points that are
/// `char`s, holding the character with that code.
#[verifier::external_body]
fn char_from_code(code: u32) -> (r: Option<char>)
    ensures
        r is Some <==> is_scalar(code as int),
        r is Some ==> r->0 as u32 == code && r->0 == char_of(code as int),
{
    char::from_u32(code)
}

pub open spec fn char_at(s: Seq<char>, i: int) -> Option<char> {
    if 0 <= i < s.len() {
        Some(s[i])
    } else {
        None
    }
}

/// `r` is what `spec` says for a value that starts at `start`, and the cursor
/// stands at `end` after it.
pub open spec fn agrees(
    r: Result<JsonValue, ParseError>,
    spec: Result<(Json, nat), ParseError>,
    start: int,
    end: int,
) -> bool {
    match spec {
        Ok(x) => match r {
            Ok(v) => v@ == x.0 && end == start + x.1,
            Err(_) => false,
        },
        Err(e) => r == Err::<JsonValue, ParseError>(e),
    }
}

/// `r` is what `spec` says for a container, and the cursor stands past it.
pub open spec fn agrees_to_end(
    r: Result<JsonValue, ParseError>,
    spec: Result<(Json, int), ParseError>,
    end: int,
) -> bool {
    match spec {
        Ok(x) => match r {
            Ok(v) => v@ == x.0 && end == x.1,
            Err(_) => false,
        },
        Err(e) => r == Err::<JsonValue, ParseError>(e),
    }
}

pub open spec fn token_agrees(
    r: Result<String, ParseError>,
    spec: Result<(Seq<char>, nat), ParseError>,
    start: int,
    end: int,
) -> bool {
    match spec {
        Ok(x) => match r {
            Ok(t) => t@ == x.0 && end == start + x.1,
            Err(_) => false,
        },
        Err(e) => r == Err::<String, ParseError>(e),
    }
}

/// A cursor over the characters of a text.
pub struct Parser {
    input: Vec<char>,
    position: usize,
}

impl Parser {
    /// The characters of the text.
    pub closed spec fn text(&self) -> Seq<char> {
        self.input@
    }

    /// The index of the character under the cursor.
    pub closed spec fn pos(&self) -> int {
        self.position as int
    }

    /// The cursor never stands before the start of the text.
    pub proof fn lemma_pos_nonneg(&self)
        ensures
            0 <= self.pos(),
    {
    }

    pub fn new(input: &str) -> (p: Parser)
        ensures
            p.text() == input@,
            p.pos() == 0,
    {
        Parser { input: chars_of(input), position: 0 }
    }

    /// The character under the cursor, if any.
    pub fn peek(&self) -> (r: Option<char>)
        ensures
            r == char_at(self.text(), self.pos()),
    {
        if self.position < self.input.len() {
            Some(self.input[self.position])
        } else {
            None
        }
    }

    /// The character under the cursor, if any; the cursor moves past it.
    pub fn consume(&mut self) -> (r: Option<char>)
        ensures
            r == char_at(old(self).text(), old(self).pos()),
            final(self).text() == old(self).text(),
            final(self).pos() == old(self).pos() + if r is Some {
                1int
            } else {
                0int
            },
    {
        if self.position < self.input.len() {
            let c = self.input[self.position];
            self.position = self.position + 1;
            Some(c)
        } else {
            None
        }
    }

    /// Moves the cursor past a maximal run of spaces, tabs, newlines and
    /// carriage returns.
    pub fn skip_whitespace(&mut self)
        ensures
            final(self).text() == old(self).text(),
            final(self).pos() == old(self).pos() + ws_len(old(self).text(), old(self).pos()),
    {
        let ghost s = self.input@;
        let ghost digits_at = self.position as int;
        while self.position < self.input.len() && is_ws_char(self.input[self.position])
            invariant
                self.input@ == s,
                digits_at <= self.position,
                digits_at + ws_len(s, digits_at) == self.position + ws_len(s, self.position as int),
            decreases self.input.len() - self.position,
        {
            self.position = self.position + 1;
        }
    }
}

impl Parser {
    /// The value of four hexadecimal digits from `p`.
    fn read_hex4(&self, p: usize) -> (r: Result<u32, ParseError>)
        requires
            p <= self.text().len(),
        ensures
            match hex_code(self.text(), p as int, 4, 0) {
                Ok(code) => r == Ok::<u32, ParseError>(code as u32) && 0 <= code < 0x10000 && p + 4
                    <= self.text().len(),
                Err(e) => r == Err::<u32, ParseError>(e),
            },
    {
        let ghost s = self.input@;
        let mut acc: u32 = 0;
        let mut k: usize = 0;
        while k < 4
            invariant
                self.input@ == s,
                k <= 4,
                p + k <= self.input.len(),
                acc < pow16(k as nat),
                hex_code(s, p as int, 4, 0) == hex_code(s, p + k, (4 - k) as nat, acc as int),
            decreases 4 - k,
        {
            let q = p + k;
            if q >= self.input.len() {
                return Err(ParseError::UnexpectedEndOfInput);
            }
            let c = self.input[q];
            let d = hex_digit(c);
            match d {
                None => {
                    return Err(ParseError::UnexpectedToken(q));
                },
                Some(v) => {
                    assert(pow16((k + 1) as nat) == 16 * pow16(k as nat));
                    assert(pow16(k as nat) <= 4096) by {
                        assert(pow16(0) == 1);
                        assert(pow16(1) == 16);
                        assert(pow16(2) == 256);
                        assert(pow16(3) == 4096);
                    }
                    assert(acc * 16 + v < 16 * pow16(k as nat)) by (nonlinear_arith)
                        requires
                            acc < pow16(k as nat),
                            v < 16,
                    ;
                    acc = acc * 16 + v;
                },
            }
            k = k + 1;
        }
        assert(pow16(4) == 0x10000) by {
            assert(pow16(0) == 1);
            assert(pow16(1) == 16);
            assert(pow16(2) == 256);
            assert(pow16(3) == 4096);
        }
        Ok(acc)
    }

    /// Reads a quoted string; the cursor moves past its closing quote.
    fn parse_string(&mut self) -> (r: Result<String, ParseError>)
        ensures
            final(self).text() == old(self).text(),
            token_agrees(r, string_token(old(self).text(), old(self).pos()), old(self).pos(), final(self).pos()),
    {
        let ghost s = self.input@;
        let start = self.position;
        if start >= self.input.len() {
            return Err(ParseError::UnexpectedEndOfInput);
        }
        if self.input[start] != '"' {
            return Err(ParseError::UnexpectedToken(start));
        }
        self.position = start + 1;
        let mut out = String::new();
        loop
            invariant
                self.input@ == s,
                old(self).input@ == s,
                start == old(self).position,
                start < s.len() && s[start as int] == '"',
                start < self.position <= s.len(),
                string_rest(s, start + 1, Seq::empty()) == string_rest(s, self.position as int, out@),
            decreases s.len() + 8 - self.position,
        {
            let i = self.position;
            if i >= self.input.len() {
                return Err(ParseError::UnexpectedEndOfInput);
            }
            let c = self.input[i];
            if c == '"' {
                self.position = i + 1;
                return Ok(out);
            } else if c == '\t' || c == '\n' || c == '\r' {
                return Err(ParseError::UnexpectedToken(i));
            } else if c == '\\' {
                if i + 1 >= self.input.len() {
                    return Err(ParseError::UnexpectedEndOfInput);
                }
                let e = self.input[i + 1];
                if e == 'u' {
                    let code = match self.read_hex4(i + 2) {
                        Ok(code) => code,
                        Err(x) => {
                            return Err(x);
                        },
                    };
                    match char_from_code(code) {
                        Some(ch) => {
                            push_char(&mut out, ch);
                            self.position = i + 6;
                        },
                        None => {
                            return Err(ParseError::UnexpectedToken(i));
                        },
                    }
                } else {
                    match escape_of(e) {
                        Some(m) => {
                            push_char(&mut out, m);
                            self.position = i + 2;
                        },
                        None => {
                            return Err(ParseError::UnexpectedToken(i + 1));
                        },
                    }
                }
            } else {
                push_char(&mut out, c);
                self.position = i + 1;
            }
        }
    }

    /// The position past the run of digits from `p`.
    fn digits_end(&self, p: usize) -> (r: usize)
        ensures
            r == p + digits_len(self.text(), p as int),
    {
        let ghost s = self.input@;
        let mut q = p;
        while q < self.input.len() && is_digit_char(self.input[q])
            invariant
                self.input@ == s,
                p <= q,
                p + digits_len(s, p as int) == q + digits_len(s, q as int),
            decreases self.input.len() - q,
        {
            q = q + 1;
        }
        q
    }

    fn digits_after(&self, q: usize) -> (r: Result<usize, ParseError>)
        requires
            q <= self.text().len(),
        ensures
            match digits_after(self.text(), q as int) {
                Ok(e) => r == Ok::<usize, ParseError>(e as usize) && e <= self.text().len(),
                Err(x) => r == Err::<usize, ParseError>(x),
            },
    {
        let e = self.digits_end(q);
        proof {
            lemma_digits_len_bound(self.text(), q as int);
        }
        if e > q {
            Ok(e)
        } else if q >= self.input.len() {
            Err(ParseError::UnexpectedEndOfInput)
        } else {
            Err(ParseError::UnexpectedToken(q))
        }
    }

    /// Reads a number; the cursor moves past it.
    fn parse_number(&mut self) -> (r: Result<String, ParseError>)
        requires
            old(self).pos() < old(self).text().len(),
        ensures
            final(self).text() == old(self).text(),
            token_agrees(r, number_token(old(self).text(), old(self).pos()), old(self).pos(), final(self).pos()),
    {
        let ghost s = self.input@;
        let start = self.position;
        let len = self.input.len();
        let digits_at = if start < len && self.input[start] == '-' {
            start + 1
        } else {
            start
        };
        if digits_at >= len || !is_digit_char(self.input[digits_at]) {
            return Err(ParseError::UnexpectedToken(digits_at));
        }
        let int_end = self.digits_end(digits_at);
        proof {
            lemma_digits_len_bound(s, digits_at as int);
        }
        let fraction = int_end < len && self.input[int_end] == '.';
        let frac_end = if fraction {
            match self.digits_after(int_end + 1) {
                Ok(e) => e,
                Err(x) => {
                    return Err(x);
                },
            }
        } else {
            int_end
        };
        let num_end = if frac_end < len && (self.input[frac_end] == 'e' || self.input[frac_end] == 'E') {
            let q = if frac_end + 1 < len && (self.input[frac_end + 1] == '+' || self.input[frac_end + 1] == '-') {
                frac_end + 2
            } else {
                frac_end + 1
            };
            match self.digits_after(q) {
                Ok(e) => e,
                Err(x) => {
                    return Err(x);
                },
            }
        } else {
            frac_end
        };
        if !fraction && int_end - digits_at > 1 && self.input[digits_at] == '0' {
            return Err(ParseError::LeadingZero(num_end));
        }
        let mut out = String::new();
        let mut i = start;
        while i < num_end
            invariant
                self.input@ == s,
                start <= i <= num_end <= s.len(),
                out@ == s.subrange(start as int, i as int),
            decreases num_end - i,
        {
            push_char(&mut out, self.input[i]);
            assert(s.subrange(start as int, i + 1) == s.subrange(start as int, i as int).push(s[i as int]));
            i = i + 1;
        }
        self.position = num_end;
        Ok(out)
    }

    /// The position past the run of letters from `p`.
    fn word_end(&self, p: usize) -> (r: usize)
        ensures
            r == p + word_len(self.text(), p as int),
    {
        let ghost s = self.input@;
        let mut q = p;
        while q < self.input.len() && is_word_letter(self.input[q])
            invariant
                self.input@ == s,
                p <= q,
                p + word_len(s, p as int) == q + word_len(s, q as int),
            decreases self.input.len() - q,
        {
            q = q + 1;
        }
        q
    }

    /// Reads `true`, `false` or `null` as a maximal run of letters.
    fn parse_literal(&mut self) -> (r: Result<JsonValue, ParseError>)
        requires
            old(self).pos() < old(self).text().len(),
        ensures
            final(self).text() == old(self).text(),
            agrees(r, literal_token(old(self).text(), old(self).pos()), old(self).pos(), final(self).pos()),
    {
        let ghost s = self.input@;
        let i = self.position;
        let e = self.word_end(i);
        proof {
            lemma_word_len_bound(s, i as int);
        }
        let n = e - i;
        let ghost w = s.subrange(i as int, e as int);
        if n == 4 && self.input[i] == 't' && self.input[i + 1] == 'r' && self.input[i + 2] == 'u'
            && self.input[i + 3] == 'e' {
            assert(w =~= seq!['t', 'r', 'u', 'e']);
            self.position = e;
            let r = JsonValue::Boolean(true);
            assert(r@ == Json::Boolean(true));
            Ok(r)
        } else if n == 5 && self.input[i] == 'f' && self.input[i + 1] == 'a' && self.input[i + 2]
            == 'l' && self.input[i + 3] == 's' && self.input[i + 4] == 'e' {
            assert(w != seq!['t', 'r', 'u', 'e']);
            assert(w =~= seq!['f', 'a', 'l', 's', 'e']);
            self.position = e;
            let r = JsonValue::Boolean(false);
            assert(r@ == Json::Boolean(false));
            Ok(r)
        } else if n == 4 && self.input[i] == 'n' && self.input[i + 1] == 'u' && self.input[i + 2]
            == 'l' && self.input[i + 3] == 'l' {
            assert(w != seq!['t', 'r', 'u', 'e']);
            assert(w != seq!['f', 'a', 'l', 's', 'e']);
            assert(w =~= seq!['n', 'u', 'l', 'l']);
            self.position = e;
            let r = JsonValue::Null;
            assert(r@ == Json::Null);
            Ok(r)
        } else {
            proof {
                let t = seq!['t', 'r', 'u', 'e'];
                let f = seq!['f', 'a', 'l', 's', 'e'];
                let u = seq!['n', 'u', 'l', 'l'];
                assert(w.len() == n);
                if w == t {
                    assert(t.len() == 4 && t[0] == 't' && t[1] == 'r' && t[2] == 'u' && t[3] == 'e');
                    assert(s[i as int] == 't' && s[i + 1] == 'r' && s[i + 2] == 'u' && s[i + 3] == 'e');
                }
                if w == f {
                    assert(f.len() == 5 && f[0] == 'f' && f[1] == 'a' && f[2] == 'l' && f[3] == 's' && f[4] == 'e');
                    assert(s[i as int] == 'f' && s[i + 1] == 'a' && s[i + 2] == 'l' && s[i + 3] == 's' && s[i + 4] == 'e');
                }
                if w == u {
                    assert(u.len() == 4 && u[0] == 'n' && u[1] == 'u' && u[2] == 'l' && u[3] == 'l');
                    assert(s[i as int] == 'n' && s[i + 1] == 'u' && s[i + 2] == 'l' && s[i + 3] == 'l');
                }
                assert(literal_token(s, i as int) == Err::<(Json, nat), ParseError>(unexpected(i as int)));
            }
            Err(ParseError::UnexpectedToken(i))
        }
    }
}

impl Parser {
    /// Reads one value at nesting `depth`, whitespace first; the cursor
    /// moves past it.
    pub fn parse_value(&mut self, depth: u32) -> (r: Result<JsonValue, ParseError>)
        ensures
            final(self).text() == old(self).text(),
            agrees(r, value_at(old(self).text(), old(self).pos(), depth as int), old(self).pos(), final(self).pos()),
        decreases old(self).text().len() - old(self).pos(), 1int,
    {
        let ghost s = self.input@;
        let ghost i = self.position as int;
        self.skip_whitespace();
        let j = self.position;
        if j >= self.input.len() {
            return Err(ParseError::UnexpectedEndOfInput);
        }
        let c = self.input[j];
        if c == '{' {
            self.parse_object(depth)
        } else if c == '[' {
            self.parse_array(depth)
        } else if c == '"' {
            match self.parse_string() {
                Ok(t) => Ok(JsonValue::String(t)),
                Err(x) => Err(x),
            }
        } else if c == 't' || c == 'f' || c == 'n' {
            self.parse_literal()
        } else if is_digit_char(c) || c == '-' {
            match self.parse_number() {
                Ok(t) => Ok(JsonValue::Number(t)),
                Err(x) => Err(x),
            }
        } else {
            Err(ParseError::UnexpectedToken(j))
        }
    }

    /// Reads an object whose `{` is under the cursor; the cursor moves past
    /// its `}`. A key seen again keeps its first place and takes the new value.
    fn parse_object(&mut self, depth: u32) -> (r: Result<JsonValue, ParseError>)
        requires
            old(self).pos() < old(self).text().len(),
            old(self).text()[old(self).pos()] == '{',
        ensures
            final(self).text() == old(self).text(),
            r is Ok ==> old(self).pos() <= final(self).pos(),
            agrees_to_end(r, object_at(old(self).text(), old(self).pos(), depth as int), final(self).pos()),
        decreases old(self).text().len() - old(self).pos(), 0int,
    {
        let ghost s = self.input@;
        let j = self.position;
        assert(j < self.input.len());
        if depth >= MAX_DEPTH {
            return Err(ParseError::MaxDepthExceeded(j));
        }
        self.position = j + 1;
        self.skip_whitespace();
        let k = self.position;
        if k >= self.input.len() {
            return Err(ParseError::UnexpectedEndOfInput);
        }
        if self.input[k] == '}' {
            self.position = k + 1;
            let r = JsonValue::Object(Vec::new());
            assert(members_view(Seq::<(String, JsonValue)>::empty()) =~= Seq::empty());
            return Ok(r);
        }
        let mut members: Vec<(String, JsonValue)> = Vec::new();
        let mut index = new_key_index();
        assert(members_view(members@) =~= Seq::empty());
        assert(keys_of(members_view(members@)) =~= Seq::empty());
        loop
            invariant
                self.input@ == s,
                old(self).input@ == s,
                j == old(self).position,
                depth < MAX_DEPTH,
                j < self.position < s.len(),
                object_at(s, j as int, depth as int) == members_at(s, self.position as int, depth as int, members_view(members@)),
                key_order(index) == keys_of(members_view(members@)),
                keys_unique(members_view(members@)),
            decreases s.len() - self.position,
        {
            let ghost k0 = self.position as int;
            let ghost acc = members_view(members@);
            let key = match self.parse_string() {
                Ok(t) => t,
                Err(x) => {
                    return Err(x);
                },
            };
            self.skip_whitespace();
            let k2 = self.position;
            if k2 >= self.input.len() {
                return Err(ParseError::UnexpectedEndOfInput);
            }
            if self.input[k2] != ':' {
                return Err(ParseError::UnexpectedToken(k2));
            }
            self.position = k2 + 1;
            let value = match self.parse_value(depth + 1) {
                Ok(v) => v,
                Err(x) => {
                    return Err(x);
                },
            };
            let ghost kv = key@;
            let ghost vv = value@;
            let (slot, prev) = key_index_insert(&mut index, key.clone());
            if prev.is_some() {
                proof {
                    lemma_insert_existing(acc, slot as int, kv, vv);
                }
                members[slot] = (key, value);
                assert(members_view(members@) =~= acc.update(slot as int, (kv, vv)));
                assert(keys_of(members_view(members@)) =~= keys_of(acc));
            } else {
                proof {
                    lemma_insert_new(acc, kv, vv);
                }
                members.push((key, value));
                assert(members_view(members@) =~= acc.push((kv, vv)));
                assert(keys_of(members_view(members@)) =~= keys_of(acc).push(kv));
            }
            self.skip_whitespace();
            let k4 = self.position;
            if k4 >= self.input.len() {
                return Err(ParseError::UnexpectedEndOfInput);
            }
            let c = self.input[k4];
            if c == '}' {
                self.position = k4 + 1;
                return Ok(JsonValue::Object(members));
            } else if c == ',' {
                self.position = k4 + 1;
                self.skip_whitespace();
                let k5 = self.position;
                if k5 >= self.input.len() {
                    return Err(ParseError::UnexpectedEndOfInput);
                }
                if self.input[k5] == '}' {
                    return Err(ParseError::TrailingComma(k5));
                }
            } else {
                return Err(ParseError::UnexpectedEndOfInput);
            }
        }
    }

    /// Reads an array whose `[` is under the cursor; the cursor moves past
    /// its `]`.
    fn parse_array(&mut self, depth: u32) -> (r: Result<JsonValue, ParseError>)
        requires
            old(self).pos() < old(self).text().len(),
            old(self).text()[old(self).pos()] == '[',
        ensures
            final(self).text() == old(self).text(),
            r is Ok ==> old(self).pos() <= final(self).pos(),
            agrees_to_end(r, array_at(old(self).text(), old(self).pos(), depth as int), final(self).pos()),
        decreases old(self).text().len() - old(self).pos(), 0int,
    {
        let ghost s = self.input@;
        let j = self.position;
        assert(j < self.input.len());
        if depth >= MAX_DEPTH {
            return Err(ParseError::MaxDepthExceeded(j));
        }
        self.position = j + 1;
        self.skip_whitespace();
        let k = self.position;
        if k >= self.input.len() {
            return Err(ParseError::UnexpectedEndOfInput);
        }
        if self.input[k] == ']' {
            self.position = k + 1;
            let r = JsonValue::Array(Vec::new());
            assert(elements_view(Seq::<JsonValue>::empty()) =~= Seq::empty());
            return Ok(r);
        }
        let mut elements: Vec<JsonValue> = Vec::new();
        assert(elements_view(elements@) =~= Seq::empty());
        loop
            invariant
                self.input@ == s,
                old(self).input@ == s,
                j == old(self).position,
                depth < MAX_DEPTH,
                j < self.position < s.len(),
                array_at(s, j as int, depth as int) == elements_at(s, self.position as int, depth as int, elements_view(elements@)),
            decreases s.len() - self.position,
        {
            let ghost acc = elements_view(elements@);
            let value = match self.parse_value(depth + 1) {
                Ok(v) => v,
                Err(x) => {
                    return Err(x);
                },
            };
            let ghost vv = value@;
            elements.push(value);
            assert(elements_view(elements@) =~= acc.push(vv));
            self.skip_whitespace();
            let k2 = self.position;
            if k2 >= self.input.len() {
                return Err(ParseError::UnexpectedEndOfInput);
            }
            let c = self.input[k2];
            if c == ']' {
                self.position = k2 + 1;
                return Ok(JsonValue::Array(elements));
            } else if c == ',' {
                self.position = k2 + 1;
                self.skip_whitespace();
                let k3 = self.position;
                if k3 >= self.input.len() {
                    return Err(ParseError::UnexpectedEndOfInput);
                }
                if self.input[k3] == ']' {
                    return Err(ParseError::TrailingComma(k3));
                }
            } else {
                return Err(ParseError::UnexpectedEndOfInput);
            }
        }
    }

    /// Reads a whole document from the start of the text: an object or an
    /// array, with nothing but whitespace around it.
    pub fn parse(&mut self) -> (r: Result<JsonValue, ParseError>)
        requires
            old(self).pos() == 0,
        ensures
            match document(old(self).text()) {
                Ok(v) => r is Ok && r->Ok_0@ == v,
                Err(e) => r == Err::<JsonValue, ParseError>(e),
            },
    {
        let ghost s = self.input@;
        self.skip_whitespace();
        let j = self.position;
        if j >= self.input.len() {
            return Err(ParseError::UnexpectedEndOfInput);
        }
        let c = self.input[j];
        let res = if c == '{' {
            self.parse_object(0)
        } else if c == '[' {
            self.parse_array(0)
        } else {
            return Err(ParseError::UnexpectedToken(j));
        };
        let v = match res {
            Ok(v) => v,
            Err(x) => {
                return Err(x);
            },
        };
        self.skip_whitespace();
        if self.position < self.input.len() {
            return Err(ParseError::UnexpectedToken(self.position));
        }
        Ok(v)
    }
}

/// Reads a whole document: an object or an array, with nothing but
/// whitespace around it.
pub fn parse(text: &str) -> (r: Result<JsonValue, ParseError>)
    ensures
        match document(text@) {
            Ok(v) => r is Ok && r->Ok_0@ == v,
            Err(e) => r == Err::<JsonValue, ParseError>(e),
        },
{
    let mut p = Parser::new(text);
    p.parse()
}

/// The keys of an object's members, in order.
pub open spec fn keys_of(m: Seq<(Seq<char>, Json)>) -> Seq<Seq<char>> {
    Seq::new(m.len(), |i: int| m[i].0)
}

/// No key stands twice among an object's members.
pub open spec fn keys_unique(m: Seq<(Seq<char>, Json)>) -> bool {
    forall|a: int, b: int| 0 <= a < m.len() && 0 <= b < m.len() && a != b ==> m[a].0 != m[b].0
}

proof fn lemma_insert_existing(m: Seq<(Seq<char>, Json)>, slot: int, k: Seq<char>, v: Json)
    requires
        0 <= slot < m.len(),
        keys_of(m)[slot] == k,
        keys_unique(m),
    ensures
        insert_member(m, k, v) == m.update(slot, (k, v)),
        keys_unique(m.update(slot, (k, v))),
{
    assert(m[slot].0 == k);
    assert(has_key(m, k));
    let c = choose|i: int| 0 <= i < m.len() && m[i].0 == k;
    assert(c == slot);
    let u = m.update(slot, (k, v));
    assert forall|a: int, b: int| 0 <= a < u.len() && 0 <= b < u.len() && a != b implies u[a].0 != u[b].0 by {
        assert(u[a].0 == m[a].0);
        assert(u[b].0 == m[b].0);
    }
}

proof fn lemma_insert_new(m: Seq<(Seq<char>, Json)>, k: Seq<char>, v: Json)
    requires
        !keys_of(m).contains(k),
        keys_unique(m),
    ensures
        insert_member(m, k, v) == m.push((k, v)),
        keys_unique(m.push((k, v))),
{
    if has_key(m, k) {
        let i = choose|i: int| 0 <= i < m.len() && m[i].0 == k;
        assert(keys_of(m)[i] == k);
    }
    let u = m.push((k, v));
    assert forall|a: int, b: int| 0 <= a < u.len() && 0 <= b < u.len() && a != b implies u[a].0 != u[b].0 by {
        if a == m.len() as int {
            assert(keys_of(m)[b] == m[b].0);
        } else if b == m.len() as int {
            assert(keys_of(m)[a] == m[a].0);
        }
    }
}

pub open spec fn pow16(k: nat) -> int
    decreases k,
{
    if k == 0 {
        1
    } else {
        16 * pow16((k - 1) as nat)
    }
}

proof fn lemma_digits_len_bound(s: Seq<char>, i: int)
    ensures
        digits_len(s, i) > 0 ==> 0 <= i && i + digits_len(s, i) <= s.len(),
    decreases s.len() - i,
{
    if 0 <= i < s.len() && is_digit(s[i]) {
        lemma_digits_len_bound(s, i + 1);
    }
}

proof fn lemma_word_len_bound(s: Seq<char>, i: int)
    ensures
        word_len(s, i) > 0 ==> 0 <= i && i + word_len(s, i) <= s.len(),
    decreases s.len() - i,
{
    if 0 <= i < s.len() && is_word_char(s[i]) {
        lemma_word_len_bound(s, i + 1);
    }
}

fn hex_digit(c: char) -> (r: Option<u32>)
    ensures
        r is Some <==> is_hex(c),
        r is Some ==> r->0 as int == hex_value(c) && r->0 < 16,
{
    if '0' <= c && c <= '9' {
        Some(c as u32 - '0' as u32)
    } else if 'a' <= c && c <= 'f' {
        Some(c as u32 - 'a' as u32 + 10)
    } else if 'A' <= c && c <= 'F' {
        Some(c as u32 - 'A' as u32 + 10)
    } else {
        None
    }
}

fn escape_of(e: char) -> (r: Option<char>)
    ensures
        r == escaped_char(e),
{
    if e == '"' {
        Some('"')
    } else if e == '\\' {
        Some('\\')
    } else if e == '/' {
        Some('/')
    } else if e == 'b' {
        Some('\u{8}')
    } else if e == 'f' {
        Some('\u{c}')
    } else if e == 'n' {
        Some('\n')
    } else if e == 'r' {
        Some('\r')
    } else if e == 't' {
        Some('\t')
    } else {
        None
    }
}

fn is_digit_char(c: char) -> (r: bool)
    ensures
        r == is_digit(c),
{
    '0' <= c && c <= '9'
}

fn is_word_letter(c: char) -> (r: bool)
    ensures
        r == is_word_char(c),
{
    if (c as u32) < 128 {
        ('a' <= c && c <= 'z') || ('A' <= c && c <= 'Z')
    } else {
        is_alphabetic(c)
    }
}

fn is_ws_char(c: char) -> (r: bool)
    ensures
        r == is_ws(c),
{
    c == ' ' || c == '\t' || c == '\n' || c == '\r'
}

} // verus!
