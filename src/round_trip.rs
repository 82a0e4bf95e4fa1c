//! Reading back what was written gives the same tree.
use vstd::prelude::*;
use crate::value::{Json, ParseError};
use crate::grammar::{
    hex_code, is_hex, hex_value, is_scalar, char_of, code_of,
    is_ws,
    MAX_DEPTH, is_digit, is_word_char, ws_len, digits_len, word_len, escaped_char, string_rest,
    string_token, has_fraction, fraction_end, exponent_end, number_token, literal_token, has_key,
    insert_member, value_at, object_at, members_at, array_at, elements_at, document,
};
use crate::parser::keys_unique;
use crate::serializer::{
    escape, escaped, quoted, hex_char, separator, text_of, join_elements, join_members, member_text,
};

verus! {

/// `t` stands in `s` from position `i` on.
pub open spec fn holds_at(s: Seq<char>, i: int, t: Seq<char>) -> bool {
    0 <= i && i + t.len() <= s.len() && s.subrange(i, i + t.len()) == t
}

/// A value may end at `e`: the text ends there, or whitespace, a separator
/// or a closing bracket follows.
pub open spec fn value_boundary(s: Seq<char>, e: int) -> bool {
    e == s.len() || (0 <= e < s.len() && (s[e] == ',' || s[e] == ']' || s[e] == '}' || is_ws(
        s[e],
    )))
}

/// `t` is the text of one number, read whole.
pub open spec fn is_number_text(t: Seq<char>) -> bool {
    number_token(t, 0) == Ok::<(Seq<char>, nat), ParseError>((t, t.len()))
}

/// Every number of the tree is the text of one number, and no object
/// holds a key twice.
pub open spec fn well_formed(v: Json) -> bool
    decreases v,
{
    match v {
        Json::Number(t) => is_number_text(t),
        Json::Array(a) => forall|j: int| 0 <= j < a.len() ==> well_formed(#[trigger] a[j]),
        Json::Object(m) => keys_unique(m) && forall|j: int|
            0 <= j < m.len() ==> well_formed(#[trigger] m[j].1),
        _ => true,
    }
}

/// Containers in the tree are nested at most `n` levels deep.
pub open spec fn nests_within(v: Json, n: int) -> bool
    decreases v,
{
    match v {
        Json::Array(a) => n >= 1 && forall|j: int|
            0 <= j < a.len() ==> nests_within(#[trigger] a[j], n - 1),
        Json::Object(m) => n >= 1 && forall|j: int|
            0 <= j < m.len() ==> nests_within(#[trigger] m[j].1, n - 1),
        _ => true,
    }
}

/// Parsing the written text of a tree gives the tree back, when its numbers
/// are numbers, its objects have distinct keys, and it is an object or an
/// array nested at most as deep as the parser allows. This covers every
/// string: the writer escapes what the reader would refuse raw.
pub proof fn lemma_round_trip(v: Json)
    requires
        v is Array || v is Object,
        well_formed(v),
        nests_within(v, MAX_DEPTH as int),
    ensures
        document(text_of(v)) == Ok::<Json, ParseError>(v),
{
    let s = text_of(v);
    lemma_text_starts(v);
    assert(s.subrange(0, s.len() as int) == s);
    lemma_container(s, 0, v, 0);
    assert(ws_len(s, 0) == 0);
    assert(ws_len(s, s.len() as int) == 0);
}

proof fn lemma_holds_split(s: Seq<char>, i: int, x: Seq<char>, y: Seq<char>)
    requires
        holds_at(s, i, x + y),
    ensures
        holds_at(s, i, x),
        holds_at(s, i + x.len(), y),
{
    let xy = x + y;
    assert(s.subrange(i, i + x.len()) =~= s.subrange(i, i + xy.len()).subrange(0, x.len() as int));
    assert(xy.subrange(0, x.len() as int) =~= x);
    assert(s.subrange(i + x.len(), i + x.len() + y.len()) =~= s.subrange(i, i + xy.len()).subrange(
        x.len() as int,
        xy.len() as int,
    ));
    assert(xy.subrange(x.len() as int, xy.len() as int) =~= y);
}

proof fn lemma_at(s: Seq<char>, i: int, t: Seq<char>, q: int)
    requires
        holds_at(s, i, t),
        0 <= q < t.len(),
    ensures
        s[i + q] == t[q],
{
    assert(s.subrange(i, i + t.len())[q] == t[q]);
}

proof fn lemma_holds_index(s: Seq<char>, i: int, t: Seq<char>)
    requires
        holds_at(s, i, t),
    ensures
        forall|q: int| 0 <= q < t.len() ==> s[i + q] == #[trigger] t[q],
{
    assert forall|q: int| 0 <= q < t.len() implies s[i + q] == #[trigger] t[q] by {
        lemma_at(s, i, t, q);
    }
}

/// The first character of a written value, which tells its kind.
pub open spec fn starts_value(c: char) -> bool {
    c == 'n' || c == 't' || c == 'f' || c == '"' || c == '[' || c == '{' || c == '-' || is_digit(c)
}

proof fn lemma_text_starts(v: Json)
    requires
        well_formed(v),
    ensures
        text_of(v).len() > 0,
        starts_value(text_of(v)[0]),
        v is Array ==> text_of(v)[0] == '[',
        v is Object ==> text_of(v)[0] == '{',
        v is Str ==> text_of(v)[0] == '"',
        v is Number ==> (is_digit(text_of(v)[0]) || text_of(v)[0] == '-'),
{
    match v {
        Json::Number(t) => {
            assert(is_number_text(t));
            if t.len() == 0 {
                assert(number_token(t, 0) is Err);
            }
        },
        Json::Str(t) => {
            assert(quoted(t)[0] == '"');
        },
        Json::Array(a) => {
            assert((seq!['['] + join_elements(a) + seq![']'])[0] == '[');
        },
        Json::Object(m) => {
            assert((seq!['{'] + join_members(m) + seq!['}'])[0] == '{');
        },
        _ => {},
    }
}

proof fn lemma_escaped_concat(a: Seq<char>, b: Seq<char>)
    ensures
        escaped(a + b) == escaped(a) + escaped(b),
    decreases b.len(),
{
    if b.len() == 0 {
        assert(a + b =~= a);
        assert(escaped(b) =~= Seq::<char>::empty());
        assert(escaped(a) + escaped(b) =~= escaped(a));
    } else {
        let ab = a + b;
        assert(ab.drop_last() =~= a + b.drop_last());
        assert(ab.last() == b.last());
        lemma_escaped_concat(a, b.drop_last());
        assert(escaped(ab) =~= escaped(a) + escaped(b));
    }
}

proof fn lemma_escaped_front(y: Seq<char>)
    requires
        y.len() > 0,
    ensures
        escaped(y) == escape(y[0]) + escaped(y.drop_first()),
{
    assert(y =~= seq![y[0]] + y.drop_first());
    lemma_escaped_concat(seq![y[0]], y.drop_first());
    let one = seq![y[0]];
    assert(one.drop_last() =~= Seq::<char>::empty());
    assert(one.last() == y[0]);
    assert(escaped(Seq::<char>::empty()) =~= Seq::<char>::empty());
    assert(escaped(one) =~= escape(y[0]));
}

/// Escaped characters followed by a closing quote read back as the
/// characters.
proof fn lemma_string_rest(s: Seq<char>, p: int, y: Seq<char>, acc: Seq<char>)
    requires
        holds_at(s, p, escaped(y) + seq!['"']),
    ensures
        string_rest(s, p, acc) == Ok::<(Seq<char>, int), ParseError>(
            (acc + y, p + escaped(y).len() + 1),
        ),
    decreases y.len(),
{
    lemma_holds_split(s, p, escaped(y), seq!['"']);
    if y.len() == 0 {
        assert(escaped(y) =~= Seq::<char>::empty());
        lemma_at(s, p, escaped(y) + seq!['"'], 0);
        assert(s[p] == '"');
        assert(acc + y =~= acc);
    } else {
        let c = y[0];
        let rest = y.drop_first();
        lemma_escaped_front(y);
        let e = escape(c);
        assert(escaped(y) + seq!['"'] =~= e + (escaped(rest) + seq!['"']));
        lemma_holds_split(s, p, e, escaped(rest) + seq!['"']);
        lemma_string_rest(s, p + e.len(), rest, acc.push(c));
        assert(acc.push(c) + rest =~= acc + y);
        lemma_at(s, p, e, 0);
        if e.len() == 2 {
            lemma_at(s, p, e, 1);
            assert(s[p] == '\\');
            assert(escaped_char(s[p + 1]) == Some(c));
        } else if e.len() == 6 {
            let code = code_of(c);
            let hi = code / 16;
            let lo = code % 16;
            lemma_at(s, p, e, 1);
            lemma_at(s, p, e, 2);
            lemma_at(s, p, e, 3);
            lemma_at(s, p, e, 4);
            lemma_at(s, p, e, 5);
            assert(s[p] == '\\' && s[p + 1] == 'u' && s[p + 2] == '0' && s[p + 3] == '0');
            assert(s[p + 4] == hex_char(hi) && s[p + 5] == hex_char(lo));
            lemma_hex_char(hi);
            lemma_hex_char(lo);
            assert(hex_code(s, p + 6, 0, hi * 16 + lo) == Ok::<int, ParseError>(code));
            assert(hex_code(s, p + 5, 1, hi) == Ok::<int, ParseError>(code));
            assert(hex_code(s, p + 4, 2, 0) == Ok::<int, ParseError>(code));
            assert(hex_code(s, p + 3, 3, 0) == Ok::<int, ParseError>(code));
            assert(hex_code(s, p + 2, 4, 0) == Ok::<int, ParseError>(code));
            assert(is_scalar(code));
            lemma_char_of_code(c);
        } else {
            assert(e[0] == c);
            assert(s[p] == c);
        }
    }
}

proof fn lemma_hex_char(n: int)
    requires
        0 <= n < 16,
    ensures
        is_hex(hex_char(n)),
        hex_value(hex_char(n)) == n,
{
}

proof fn lemma_char_of_code(c: char)
    ensures
        char_of(code_of(c)) == c,
{
    assert(code_of(c) == code_of(c));
    let d = char_of(code_of(c));
    assert(code_of(d) == code_of(c));
    assert(d as u32 == c as u32);
}

proof fn lemma_string_token(s: Seq<char>, i: int, x: Seq<char>)
    requires
        holds_at(s, i, quoted(x)),
    ensures
        string_token(s, i) == Ok::<(Seq<char>, nat), ParseError>((x, quoted(x).len())),
{
    assert(quoted(x) =~= seq!['"'] + (escaped(x) + seq!['"']));
    lemma_holds_split(s, i, seq!['"'], escaped(x) + seq!['"']);
    lemma_at(s, i, quoted(x), 0);
    assert(s[i] == '"');
    lemma_string_rest(s, i + 1, x, Seq::empty());
    assert(Seq::<char>::empty() + x =~= x);
}

proof fn lemma_digits_shift(s: Seq<char>, i: int, t: Seq<char>, p: int)
    requires
        holds_at(s, i, t),
        value_boundary(s, i + t.len()),
        0 <= p <= t.len(),
    ensures
        digits_len(s, i + p) == digits_len(t, p),
    decreases t.len() - p,
{
    lemma_holds_index(s, i, t);
    if p < t.len() {
        lemma_digits_shift(s, i, t, p + 1);
    }
}

proof fn lemma_number_token(s: Seq<char>, i: int, t: Seq<char>)
    requires
        holds_at(s, i, t),
        value_boundary(s, i + t.len()),
        is_number_text(t),
    ensures
        number_token(s, i) == Ok::<(Seq<char>, nat), ParseError>((t, t.len())),
{
    lemma_holds_index(s, i, t);
    assert forall|p: int| 0 <= p <= t.len() implies digits_len(s, i + p) == #[trigger] digits_len(
        t,
        p,
    ) by {
        lemma_digits_shift(s, i, t, p);
    }
    let n = t.len() as int;
    assert(t.len() > 0) by {
        if t.len() == 0 {
            assert(number_token(t, 0) is Err);
        }
    }
    let digits_at: int = if t[0] == '-' {
        1
    } else {
        0
    };
    assert(0 <= digits_at < n && is_digit(t[digits_at]));
    lemma_digits_bound(t, digits_at);
    let int_end = digits_at + digits_len(t, digits_at);
    assert(int_end <= n);
    assert(has_fraction(s, i + int_end) == has_fraction(t, int_end));
    if has_fraction(t, int_end) {
        lemma_digits_bound(t, int_end + 1);
    }
    let frac_end = fraction_end(t, int_end)->Ok_0;
    assert(fraction_end(s, i + int_end) == Ok::<int, ParseError>(i + frac_end));
    assert(frac_end <= n);
    if 0 <= frac_end < n && (t[frac_end] == 'e' || t[frac_end] == 'E') {
        if frac_end + 1 == n {
            assert(digits_len(t, frac_end + 1) == 0);
            assert(false);
        }
        if t[frac_end + 1] == '+' || t[frac_end + 1] == '-' {
            lemma_digits_bound(t, frac_end + 2);
        } else {
            lemma_digits_bound(t, frac_end + 1);
        }
    }
    let num_end = exponent_end(t, frac_end)->Ok_0;
    assert(exponent_end(s, i + frac_end) == Ok::<int, ParseError>(i + num_end));
    assert(num_end == n);
    assert(s.subrange(i, i + n) == t);
}

proof fn lemma_digits_bound(s: Seq<char>, i: int)
    ensures
        digits_len(s, i) > 0 ==> 0 <= i && i + digits_len(s, i) <= s.len(),
    decreases s.len() - i,
{
    if 0 <= i < s.len() && is_digit(s[i]) {
        lemma_digits_bound(s, i + 1);
    }
}

proof fn lemma_literal(s: Seq<char>, i: int, v: Json)
    requires
        v is Null || v is Boolean,
        holds_at(s, i, text_of(v)),
        value_boundary(s, i + text_of(v).len()),
    ensures
        literal_token(s, i) == Ok::<(Json, nat), ParseError>((v, text_of(v).len())),
{
    let t = text_of(v);
    lemma_holds_index(s, i, t);
    let n = t.len() as int;
    assert forall|q: int| 0 <= q < n implies is_word_char(#[trigger] s[i + q]) by {
        assert(s[i + q] == t[q]);
    }
    assert(!is_word_char(',') && !is_word_char(']') && !is_word_char('}'));
    assert(!is_word_char(' ') && !is_word_char('\t') && !is_word_char('\n') && !is_word_char('\r'));
    assert(word_len(s, i + n) == 0);
    if n == 5 {
        assert(word_len(s, i + 4) == 1);
    }
    assert(word_len(s, i + 3) == word_len(s, i + 4) + 1);
    assert(word_len(s, i + 2) == word_len(s, i + 3) + 1);
    assert(word_len(s, i + 1) == word_len(s, i + 2) + 1);
    assert(word_len(s, i) == word_len(s, i + 1) + 1);
    assert(word_len(s, i) == n);
    assert(s.subrange(i, i + n) == t);
}

/// A written value, after `w` characters of whitespace, reads back.
proof fn lemma_value(s: Seq<char>, i: int, w: nat, v: Json, d: int)
    requires
        well_formed(v),
        0 <= d,
        nests_within(v, MAX_DEPTH - d),
        0 <= i,
        ws_len(s, i) == w,
        holds_at(s, i + w, text_of(v)),
        value_boundary(s, i + w + text_of(v).len()),
    ensures
        value_at(s, i, d) == Ok::<(Json, nat), ParseError>((v, w + text_of(v).len())),
    decreases v, 1int,
{
    let t = text_of(v);
    let j = i + w;
    lemma_text_starts(v);
    lemma_holds_index(s, j, t);
    assert(s[j] == t[0]);
    match v {
        Json::Array(_) => {
            lemma_container(s, j, v, d);
        },
        Json::Object(_) => {
            lemma_container(s, j, v, d);
        },
        Json::Str(x) => {
            lemma_string_token(s, j, x);
        },
        Json::Number(x) => {
            lemma_number_token(s, j, x);
        },
        _ => {
            lemma_literal(s, j, v);
        },
    }
}

/// A written object or array reads back, starting at its bracket.
#[verifier::spinoff_prover]
#[verifier::rlimit(100)]
proof fn lemma_container(s: Seq<char>, j: int, v: Json, d: int)
    requires
        v is Array || v is Object,
        well_formed(v),
        0 <= d,
        nests_within(v, MAX_DEPTH - d),
        holds_at(s, j, text_of(v)),
    ensures
        v is Array ==> array_at(s, j, d) == Ok::<(Json, int), ParseError>(
            (v, j + text_of(v).len()),
        ),
        v is Object ==> object_at(s, j, d) == Ok::<(Json, int), ParseError>(
            (v, j + text_of(v).len()),
        ),
    decreases v, 0int,
{
    match v {
        Json::Array(a) => {
            let inner = join_elements(a);
            assert(text_of(v) =~= seq!['['] + (inner + seq![']']));
            lemma_holds_split(s, j, seq!['['], inner + seq![']']);
            lemma_holds_split(s, j + 1, inner, seq![']']);
            lemma_at(s, j, text_of(v), 0);
            if a.len() == 0 {
                assert(inner =~= Seq::<char>::empty());
                lemma_at(s, j + 1, inner + seq![']'], 0);
                assert(s[j + 1] == ']');
                assert(ws_len(s, j + 1) == 0);
            } else {
                lemma_elements(s, j + 1, a, Seq::empty(), d);
                assert(Seq::<Json>::empty() + a =~= a);
                lemma_elements_start(a);
                assert(ws_len(s, j + 1) == 0);
            }
        },
        Json::Object(m) => {
            let inner = join_members(m);
            assert(text_of(v) =~= seq!['{'] + (inner + seq!['}']));
            lemma_holds_split(s, j, seq!['{'], inner + seq!['}']);
            lemma_holds_split(s, j + 1, inner, seq!['}']);
            lemma_at(s, j, text_of(v), 0);
            if m.len() == 0 {
                assert(inner =~= Seq::<char>::empty());
                lemma_at(s, j + 1, inner + seq!['}'], 0);
                assert(s[j + 1] == '}');
                assert(ws_len(s, j + 1) == 0);
            } else {
                lemma_members(s, j + 1, m, Seq::empty(), d);
                assert(Seq::<(Seq<char>, Json)>::empty() + m =~= m);
                lemma_members_start(m);
                assert(ws_len(s, j + 1) == 0);
            }
        },
        _ => {},
    }
}

proof fn lemma_join_elements_front(a: Seq<Json>)
    requires
        a.len() >= 2,
    ensures
        join_elements(a) == text_of(a[0]) + separator() + join_elements(a.subrange(1, a.len() as int)),
    decreases a.len(),
{
    let n = a.len() as int;
    let b = a.subrange(0, n - 1);
    let r = a.subrange(1, n);
    assert(join_elements(a) == join_elements(b) + separator() + text_of(a[n - 1]));
    if n == 2 {
        assert(b.len() == 1 && b[0] == a[0]);
        assert(r.len() == 1 && r[0] == a[1]);
        assert(join_elements(b) == text_of(a[0]));
        assert(join_elements(r) == text_of(a[1]));
    } else {
        lemma_join_elements_front(b);
        assert(b.subrange(1, b.len() as int) =~= r.subrange(0, r.len() - 1));
        assert(r[r.len() - 1] == a[n - 1]);
        assert(b[0] == a[0]);
        assert(join_elements(r) == join_elements(r.subrange(0, r.len() - 1)) + separator() + text_of(
            a[n - 1],
        ));
        assert(join_elements(a) =~= text_of(a[0]) + separator() + join_elements(r));
    }
}

proof fn lemma_join_members_front(m: Seq<(Seq<char>, Json)>)
    requires
        m.len() >= 2,
    ensures
        join_members(m) == member_text(m[0]) + separator() + join_members(
            m.subrange(1, m.len() as int),
        ),
    decreases m.len(),
{
    let n = m.len() as int;
    let b = m.subrange(0, n - 1);
    let r = m.subrange(1, n);
    assert(join_members(m) == join_members(b) + separator() + member_text(m[n - 1]));
    if n == 2 {
        assert(b.len() == 1 && b[0] == m[0]);
        assert(r.len() == 1 && r[0] == m[1]);
        assert(join_members(b) == member_text(m[0]));
        assert(join_members(r) == member_text(m[1]));
    } else {
        lemma_join_members_front(b);
        assert(b.subrange(1, b.len() as int) =~= r.subrange(0, r.len() - 1));
        assert(r[r.len() - 1] == m[n - 1]);
        assert(b[0] == m[0]);
        assert(join_members(r) == join_members(r.subrange(0, r.len() - 1)) + separator()
            + member_text(m[n - 1]));
        assert(join_members(m) =~= member_text(m[0]) + separator() + join_members(r));
    }
}

/// The text of a non-empty run of elements opens with the first one's text.
proof fn lemma_elements_start(a: Seq<Json>)
    requires
        a.len() >= 1,
        well_formed(a[0]),
    ensures
        join_elements(a).len() > 0,
        starts_value(join_elements(a)[0]),
{
    lemma_text_starts(a[0]);
    if a.len() >= 2 {
        lemma_join_elements_front(a);
    }
}

proof fn lemma_members_start(m: Seq<(Seq<char>, Json)>)
    requires
        m.len() >= 1,
    ensures
        join_members(m).len() > 0,
        join_members(m)[0] == '"',
{
    if m.len() >= 2 {
        lemma_join_members_front(m);
    }
    assert(member_text(m[0])[0] == '"');
}

#[verifier::spinoff_prover]
#[verifier::rlimit(100)]
proof fn lemma_elements(s: Seq<char>, k: int, a: Seq<Json>, acc: Seq<Json>, d: int)
    requires
        a.len() >= 1,
        forall|q: int| 0 <= q < a.len() ==> well_formed(#[trigger] a[q]),
        forall|q: int| 0 <= q < a.len() ==> nests_within(#[trigger] a[q], MAX_DEPTH - d - 1),
        0 <= d < MAX_DEPTH,
        holds_at(s, k, join_elements(a) + seq![']']),
    ensures
        elements_at(s, k, d, acc) == Ok::<(Json, int), ParseError>(
            (Json::Array(acc + a), k + join_elements(a).len() + 1),
        ),
    decreases a, 0int,
{
    let x = a[0];
    let tx = text_of(x);
    lemma_text_starts(x);
    if a.len() == 1 {
        assert(join_elements(a) == tx);
        lemma_holds_split(s, k, tx, seq![']']);
        lemma_at(s, k, tx, 0);
        lemma_at(s, k + tx.len(), seq![']'], 0);
        assert(ws_len(s, k) == 0);
        lemma_value(s, k, 0, x, d + 1);
        assert(ws_len(s, k + tx.len()) == 0);
        assert(acc.push(x) =~= acc + a);
    } else {
        let r = a.subrange(1, a.len() as int);
        lemma_join_elements_front(a);
        let tr = join_elements(r);
        assert(join_elements(a) + seq![']'] =~= tx + (separator() + (tr + seq![']'])));
        lemma_holds_split(s, k, tx, separator() + (tr + seq![']']));
        lemma_holds_split(s, k + tx.len(), separator(), tr + seq![']']);
        lemma_at(s, k, tx, 0);
        lemma_at(s, k + tx.len(), separator(), 0);
        lemma_at(s, k + tx.len(), separator(), 1);
        assert(ws_len(s, k) == 0);
        lemma_value(s, k, 0, x, d + 1);
        let k1 = k + tx.len();
        assert(s[k1] == ',');
        assert(ws_len(s, k1) == 0);
        lemma_elements_start(r);
        lemma_holds_split(s, k1 + 2, tr, seq![']']);
        lemma_at(s, k1 + 2, tr, 0);
        assert(s[k1 + 2] == tr[0]);
        assert(ws_len(s, k1 + 2) == 0);
        assert(ws_len(s, k1 + 1) == 1);
        lemma_elements(s, k1 + 2, r, acc.push(x), d);
        assert(acc.push(x) + r =~= acc + a);
    }
}

#[verifier::spinoff_prover]
#[verifier::rlimit(100)]
proof fn lemma_members(
    s: Seq<char>,
    k: int,
    m: Seq<(Seq<char>, Json)>,
    acc: Seq<(Seq<char>, Json)>,
    d: int,
)
    requires
        m.len() >= 1,
        keys_unique(m),
        forall|q: int, r: int|
            #![trigger acc[r], m[q]]
            0 <= q < m.len() && 0 <= r < acc.len() ==> acc[r].0 != m[q].0,
        forall|q: int| 0 <= q < m.len() ==> well_formed(#[trigger] m[q].1),
        forall|q: int| 0 <= q < m.len() ==> nests_within(#[trigger] m[q].1, MAX_DEPTH - d - 1),
        0 <= d < MAX_DEPTH,
        holds_at(s, k, join_members(m) + seq!['}']),
    ensures
        members_at(s, k, d, acc) == Ok::<(Json, int), ParseError>(
            (Json::Object(acc + m), k + join_members(m).len() + 1),
        ),
    decreases m, 0int,
{
    let key = m[0].0;
    let x = m[0].1;
    let tx = text_of(x);
    let qk = quoted(key);
    let mt = member_text(m[0]);
    lemma_text_starts(x);
    assert(!has_key(acc, key)) by {
        if has_key(acc, key) {
            let r = choose|r: int| 0 <= r < acc.len() && acc[r].0 == key;
            assert(acc[r].0 != m[0].0);
        }
    }
    assert(insert_member(acc, key, x) == acc.push((key, x)));
    let tail: Seq<char> = if m.len() == 1 {
        seq!['}']
    } else {
        separator() + (join_members(m.subrange(1, m.len() as int)) + seq!['}'])
    };
    if m.len() == 1 {
        assert(join_members(m) == mt);
    } else {
        lemma_join_members_front(m);
    }
    assert(join_members(m) + seq!['}'] =~= qk + (seq![':', ' '] + (tx + tail)));
    lemma_holds_split(s, k, qk, seq![':', ' '] + (tx + tail));
    lemma_holds_split(s, k + qk.len(), seq![':', ' '], tx + tail);
    lemma_holds_split(s, k + qk.len() + 2, tx, tail);
    lemma_string_token(s, k, key);
    let k1 = k + qk.len();
    assert(s[k1] == ':');
    assert(ws_len(s, k1) == 0);
    assert(s[k1 + 1] == ' ');
    assert(ws_len(s, k1 + 2) == 0);
    assert(ws_len(s, k1 + 1) == 1);
    let k3 = k1 + 2 + tx.len();
    assert(tail[0] == ',' || tail[0] == '}');
    assert(s[k3] == tail[0]);
    lemma_value(s, k1 + 1, 1, x, d + 1);
    assert(ws_len(s, k3) == 0);
    if m.len() == 1 {
        assert(acc.push((key, x)) =~= acc + m);
    } else {
        let r = m.subrange(1, m.len() as int);
        let tr = join_members(r);
        lemma_holds_split(s, k3, separator(), tr + seq!['}']);
        lemma_holds_split(s, k3 + 2, tr, seq!['}']);
        lemma_members_start(r);
        assert(s[k3 + 2] == '"');
        assert(ws_len(s, k3 + 2) == 0);
        assert(ws_len(s, k3 + 1) == 1);
        let acc2 = acc.push((key, x));
        assert forall|q: int, p: int|
            #![trigger acc2[p], r[q]]
            0 <= q < r.len() && 0 <= p < acc2.len() implies acc2[p].0 != r[q].0 by {
            assert(r[q] == m[q + 1]);
            if p < acc.len() {
                assert(acc2[p] == acc[p]);
            } else {
                assert(m[0].0 != m[q + 1].0);
            }
        }
        assert(keys_unique(r)) by {
            assert forall|a1: int, b1: int|
                0 <= a1 < r.len() && 0 <= b1 < r.len() && a1 != b1 implies r[a1].0 != r[b1].0 by {
                assert(r[a1] == m[a1 + 1] && r[b1] == m[b1 + 1]);
            }
        }
        assert forall|q: int| 0 <= q < r.len() implies well_formed(#[trigger] r[q].1) by {
            assert(r[q] == m[q + 1]);
        }
        assert forall|q: int| 0 <= q < r.len() implies nests_within(
            #[trigger] r[q].1,
            MAX_DEPTH - d - 1,
        ) by {
            assert(r[q] == m[q + 1]);
        }
        lemma_members(s, k3 + 2, r, acc2, d);
        assert(acc2 + r =~= acc + m);
        assert(tail.len() == 2 + tr.len() + 1);
    }
}

/// Every character of `w` is whitespace.
pub open spec fn all_ws(w: Seq<char>) -> bool {
    forall|q: int| 0 <= q < w.len() ==> is_ws(#[trigger] w[q])
}

/// A tree written with the whitespace `w` after every opening bracket,
/// around every colon and comma, and before every closing bracket.
pub open spec fn padded_text(v: Json, w: Seq<char>) -> Seq<char>
    decreases v,
{
    match v {
        Json::Array(a) => seq!['['] + w + padded_elements(a, w) + seq![']'],
        Json::Object(m) => seq!['{'] + w + padded_members(m, w) + seq!['}'],
        _ => text_of(v),
    }
}

pub open spec fn padded_elements(a: Seq<Json>, w: Seq<char>) -> Seq<char>
    decreases a,
{
    if a.len() == 0 {
        Seq::empty()
    } else if a.len() == 1 {
        padded_text(a[0], w) + w
    } else {
        padded_text(a[0], w) + w + seq![','] + w + padded_elements(a.subrange(1, a.len() as int), w)
    }
}

pub open spec fn padded_member(p: (Seq<char>, Json), w: Seq<char>) -> Seq<char>
    decreases p,
{
    quoted(p.0) + w + seq![':'] + w + padded_text(p.1, w)
}

pub open spec fn padded_members(m: Seq<(Seq<char>, Json)>, w: Seq<char>) -> Seq<char>
    decreases m,
{
    if m.len() == 0 {
        Seq::empty()
    } else if m.len() == 1 {
        padded_member(m[0], w) + w
    } else {
        padded_member(m[0], w) + w + seq![','] + w + padded_members(m.subrange(1, m.len() as int), w)
    }
}

/// Whitespace between the tokens of a document does not change what it
/// reads as: a tree written with one run of whitespace at every place
/// between tokens, and around the whole, reads back as the tree.
pub proof fn lemma_whitespace_between_tokens(v: Json, w: Seq<char>)
    requires
        v is Array || v is Object,
        well_formed(v),
        nests_within(v, MAX_DEPTH as int),
        all_ws(w),
    ensures
        document(w + padded_text(v, w) + w) == Ok::<Json, ParseError>(v),
{
    let t = padded_text(v, w);
    let s = w + t + w;
    assert(holds_at(s, 0, w + (t + w))) by {
        assert(s.subrange(0, s.len() as int) =~= w + (t + w));
    }
    lemma_holds_split(s, 0, w, t + w);
    lemma_holds_split(s, w.len() as int, t, w);
    lemma_padded_starts(v, w);
    lemma_at(s, w.len() as int, t, 0);
    lemma_ws_run(s, 0, w);
    lemma_ws_run(s, (w.len() + t.len()) as int, w);
    lemma_padded_container(s, w.len() as int, v, 0, w);
}

proof fn lemma_ws_run(s: Seq<char>, p: int, w: Seq<char>)
    requires
        holds_at(s, p, w),
        all_ws(w),
        p + w.len() == s.len() || (p + w.len() < s.len() && !is_ws(s[p + w.len()])),
    ensures
        ws_len(s, p) == w.len(),
    decreases w.len(),
{
    if w.len() > 0 {
        lemma_at(s, p, w, 0);
        assert(w =~= seq![w[0]] + w.drop_first());
        lemma_holds_split(s, p, seq![w[0]], w.drop_first());
        assert forall|q: int| 0 <= q < w.drop_first().len() implies is_ws(
            #[trigger] w.drop_first()[q],
        ) by {
            assert(w.drop_first()[q] == w[q + 1]);
        }
        lemma_ws_run(s, p + 1, w.drop_first());
    }
}

proof fn lemma_padded_starts(v: Json, w: Seq<char>)
    requires
        well_formed(v),
    ensures
        padded_text(v, w).len() > 0,
        starts_value(padded_text(v, w)[0]),
        padded_text(v, w)[0] == text_of(v)[0],
{
    lemma_text_starts(v);
    match v {
        Json::Array(a) => {
            assert((seq!['['] + w + padded_elements(a, w) + seq![']'])[0] == '[');
        },
        Json::Object(m) => {
            assert((seq!['{'] + w + padded_members(m, w) + seq!['}'])[0] == '{');
        },
        _ => {},
    }
}

proof fn lemma_padded_value(s: Seq<char>, i: int, lead: nat, v: Json, d: int, w: Seq<char>)
    requires
        well_formed(v),
        0 <= d,
        nests_within(v, MAX_DEPTH - d),
        0 <= i,
        all_ws(w),
        ws_len(s, i) == lead,
        holds_at(s, i + lead, padded_text(v, w)),
        value_boundary(s, i + lead + padded_text(v, w).len()),
    ensures
        value_at(s, i, d) == Ok::<(Json, nat), ParseError>((v, lead + padded_text(v, w).len())),
    decreases v, 1int,
{
    let j = i + lead;
    lemma_padded_starts(v, w);
    lemma_at(s, j, padded_text(v, w), 0);
    match v {
        Json::Array(_) => {
            lemma_padded_container(s, j, v, d, w);
        },
        Json::Object(_) => {
            lemma_padded_container(s, j, v, d, w);
        },
        Json::Str(x) => {
            lemma_string_token(s, j, x);
        },
        Json::Number(x) => {
            lemma_number_token(s, j, x);
        },
        _ => {
            lemma_literal(s, j, v);
        },
    }
}

#[verifier::spinoff_prover]
#[verifier::rlimit(100)]
proof fn lemma_padded_container(s: Seq<char>, j: int, v: Json, d: int, w: Seq<char>)
    requires
        v is Array || v is Object,
        well_formed(v),
        0 <= d,
        nests_within(v, MAX_DEPTH - d),
        all_ws(w),
        holds_at(s, j, padded_text(v, w)),
    ensures
        v is Array ==> array_at(s, j, d) == Ok::<(Json, int), ParseError>(
            (v, j + padded_text(v, w).len()),
        ),
        v is Object ==> object_at(s, j, d) == Ok::<(Json, int), ParseError>(
            (v, j + padded_text(v, w).len()),
        ),
    decreases v, 0int,
{
    match v {
        Json::Array(a) => {
            let inner = padded_elements(a, w);
            assert(padded_text(v, w) =~= seq!['['] + (w + (inner + seq![']'])));
            lemma_holds_split(s, j, seq!['['], w + (inner + seq![']']));
            lemma_holds_split(s, j + 1, w, inner + seq![']']);
            lemma_holds_split(s, j + 1 + w.len(), inner, seq![']']);
            let k = j + 1 + w.len();
            if a.len() == 0 {
                assert(inner =~= Seq::<char>::empty());
                lemma_at(s, k, inner + seq![']'], 0);
                assert(s[k] == ']');
                lemma_ws_run(s, j + 1, w);
            } else {
                lemma_padded_elements_start(a, w);
                lemma_at(s, k, inner, 0);
                lemma_ws_run(s, j + 1, w);
                lemma_padded_elements(s, k, a, Seq::empty(), d, w);
                assert(Seq::<Json>::empty() + a =~= a);
            }
        },
        Json::Object(m) => {
            let inner = padded_members(m, w);
            assert(padded_text(v, w) =~= seq!['{'] + (w + (inner + seq!['}'])));
            lemma_holds_split(s, j, seq!['{'], w + (inner + seq!['}']));
            lemma_holds_split(s, j + 1, w, inner + seq!['}']);
            lemma_holds_split(s, j + 1 + w.len(), inner, seq!['}']);
            let k = j + 1 + w.len();
            if m.len() == 0 {
                assert(inner =~= Seq::<char>::empty());
                lemma_at(s, k, inner + seq!['}'], 0);
                assert(s[k] == '}');
                lemma_ws_run(s, j + 1, w);
            } else {
                lemma_padded_members_start(m, w);
                lemma_at(s, k, inner, 0);
                lemma_ws_run(s, j + 1, w);
                lemma_padded_members(s, k, m, Seq::empty(), d, w);
                assert(Seq::<(Seq<char>, Json)>::empty() + m =~= m);
            }
        },
        _ => {},
    }
}

proof fn lemma_padded_elements_start(a: Seq<Json>, w: Seq<char>)
    requires
        a.len() >= 1,
        well_formed(a[0]),
    ensures
        padded_elements(a, w).len() > 0,
        starts_value(padded_elements(a, w)[0]),
{
    lemma_padded_starts(a[0], w);
    let t = padded_text(a[0], w);
    if a.len() == 1 {
        assert((t + w)[0] == t[0]);
    } else {
        let r = padded_elements(a.subrange(1, a.len() as int), w);
        assert((t + w + seq![','] + w + r)[0] == t[0]);
    }
}

proof fn lemma_padded_members_start(m: Seq<(Seq<char>, Json)>, w: Seq<char>)
    requires
        m.len() >= 1,
    ensures
        padded_members(m, w).len() > 0,
        padded_members(m, w)[0] == '"',
{
    let t = padded_member(m[0], w);
    assert(t[0] == '"');
    if m.len() == 1 {
        assert((t + w)[0] == t[0]);
    } else {
        let r = padded_members(m.subrange(1, m.len() as int), w);
        assert((t + w + seq![','] + w + r)[0] == t[0]);
    }
}

#[verifier::spinoff_prover]
#[verifier::rlimit(100)]
proof fn lemma_padded_elements(
    s: Seq<char>,
    k: int,
    a: Seq<Json>,
    acc: Seq<Json>,
    d: int,
    w: Seq<char>,
)
    requires
        a.len() >= 1,
        forall|q: int| 0 <= q < a.len() ==> well_formed(#[trigger] a[q]),
        forall|q: int| 0 <= q < a.len() ==> nests_within(#[trigger] a[q], MAX_DEPTH - d - 1),
        0 <= d < MAX_DEPTH,
        all_ws(w),
        holds_at(s, k, padded_elements(a, w) + seq![']']),
    ensures
        elements_at(s, k, d, acc) == Ok::<(Json, int), ParseError>(
            (Json::Array(acc + a), k + padded_elements(a, w).len() + 1),
        ),
    decreases a, 0int,
{
    let x = a[0];
    let tx = padded_text(x, w);
    lemma_padded_starts(x, w);
    let k1 = k + tx.len();
    let k2 = k1 + w.len();
    if a.len() == 1 {
        assert(padded_elements(a, w) + seq![']'] =~= tx + (w + seq![']']));
        lemma_holds_split(s, k, tx, w + seq![']']);
        lemma_holds_split(s, k1, w, seq![']']);
        lemma_at(s, k, tx, 0);
        lemma_at(s, k2, seq![']'], 0);
        if w.len() > 0 {
            lemma_at(s, k1, w, 0);
        }
        assert(ws_len(s, k) == 0);
        lemma_padded_value(s, k, 0, x, d + 1, w);
        lemma_ws_run(s, k1, w);
        assert(acc.push(x) =~= acc + a);
    } else {
        let r = a.subrange(1, a.len() as int);
        let tr = padded_elements(r, w);
        assert(padded_elements(a, w) + seq![']'] =~= tx + (w + (seq![','] + (w + (tr + seq![']'])))));
        lemma_holds_split(s, k, tx, w + (seq![','] + (w + (tr + seq![']']))));
        lemma_holds_split(s, k1, w, seq![','] + (w + (tr + seq![']'])));
        lemma_holds_split(s, k2, seq![','], w + (tr + seq![']']));
        lemma_holds_split(s, k2 + 1, w, tr + seq![']']);
        lemma_holds_split(s, k2 + 1 + w.len(), tr, seq![']']);
        lemma_at(s, k, tx, 0);
        lemma_at(s, k2, seq![','], 0);
        if w.len() > 0 {
            lemma_at(s, k1, w, 0);
        }
        assert(ws_len(s, k) == 0);
        lemma_padded_value(s, k, 0, x, d + 1, w);
        lemma_ws_run(s, k1, w);
        assert forall|q: int| 0 <= q < r.len() implies well_formed(#[trigger] r[q]) by {
            assert(r[q] == a[q + 1]);
        }
        assert forall|q: int| 0 <= q < r.len() implies nests_within(
            #[trigger] r[q],
            MAX_DEPTH - d - 1,
        ) by {
            assert(r[q] == a[q + 1]);
        }
        lemma_padded_elements_start(r, w);
        let k3 = k2 + 1 + w.len();
        lemma_at(s, k3, tr, 0);
        lemma_ws_run(s, k2 + 1, w);
        lemma_padded_elements(s, k3, r, acc.push(x), d, w);
        assert(acc.push(x) + r =~= acc + a);
    }
}

#[verifier::spinoff_prover]
#[verifier::rlimit(100)]
proof fn lemma_padded_members(
    s: Seq<char>,
    k: int,
    m: Seq<(Seq<char>, Json)>,
    acc: Seq<(Seq<char>, Json)>,
    d: int,
    w: Seq<char>,
)
    requires
        m.len() >= 1,
        keys_unique(m),
        forall|q: int, r: int|
            #![trigger acc[r], m[q]]
            0 <= q < m.len() && 0 <= r < acc.len() ==> acc[r].0 != m[q].0,
        forall|q: int| 0 <= q < m.len() ==> well_formed(#[trigger] m[q].1),
        forall|q: int| 0 <= q < m.len() ==> nests_within(#[trigger] m[q].1, MAX_DEPTH - d - 1),
        0 <= d < MAX_DEPTH,
        all_ws(w),
        holds_at(s, k, padded_members(m, w) + seq!['}']),
    ensures
        members_at(s, k, d, acc) == Ok::<(Json, int), ParseError>(
            (Json::Object(acc + m), k + padded_members(m, w).len() + 1),
        ),
    decreases m, 0int,
{
    let key = m[0].0;
    let x = m[0].1;
    let tx = padded_text(x, w);
    let qk = quoted(key);
    lemma_padded_starts(x, w);
    assert(!has_key(acc, key)) by {
        if has_key(acc, key) {
            let r = choose|r: int| 0 <= r < acc.len() && acc[r].0 == key;
            assert(acc[r].0 != m[0].0);
        }
    }
    assert(insert_member(acc, key, x) == acc.push((key, x)));
    let tail: Seq<char> = if m.len() == 1 {
        seq!['}']
    } else {
        seq![','] + (w + (padded_members(m.subrange(1, m.len() as int), w) + seq!['}']))
    };
    let pm = padded_member(m[0], w);
    assert(pm == qk + w + seq![':'] + w + tx);
    if m.len() == 1 {
        assert(padded_members(m, w) == pm + w);
    } else {
        assert(padded_members(m, w) == pm + w + seq![','] + w + padded_members(
            m.subrange(1, m.len() as int),
            w,
        ));
    }
    assert(padded_members(m, w) + seq!['}'] =~= qk + (w + (seq![':'] + (w + (tx + (w
        + tail))))));
    let k1 = k + qk.len();
    let k2 = k1 + w.len();
    let kv = k2 + 1 + w.len();
    let k3 = kv + tx.len();
    let k4 = k3 + w.len();
    lemma_holds_split(s, k, qk, w + (seq![':'] + (w + (tx + (w + tail)))));
    lemma_holds_split(s, k1, w, seq![':'] + (w + (tx + (w + tail))));
    lemma_holds_split(s, k2, seq![':'], w + (tx + (w + tail)));
    lemma_holds_split(s, k2 + 1, w, tx + (w + tail));
    lemma_holds_split(s, kv, tx, w + tail);
    lemma_holds_split(s, k3, w, tail);
    lemma_string_token(s, k, key);
    lemma_at(s, k2, seq![':'], 0);
    lemma_ws_run(s, k1, w);
    lemma_at(s, kv, tx, 0);
    lemma_ws_run(s, k2 + 1, w);
    lemma_at(s, k4, tail, 0);
    assert(tail[0] == ',' || tail[0] == '}');
    if w.len() > 0 {
        lemma_at(s, k3, w, 0);
    }
    lemma_padded_value(s, k2 + 1, w.len(), x, d + 1, w);
    lemma_ws_run(s, k3, w);
    if m.len() == 1 {
        assert(acc.push((key, x)) =~= acc + m);
    } else {
        let r = m.subrange(1, m.len() as int);
        let tr = padded_members(r, w);
        lemma_holds_split(s, k4, seq![','], w + (tr + seq!['}']));
        lemma_holds_split(s, k4 + 1, w, tr + seq!['}']);
        lemma_holds_split(s, k4 + 1 + w.len(), tr, seq!['}']);
        lemma_padded_members_start(r, w);
        lemma_at(s, k4 + 1 + w.len(), tr, 0);
        lemma_ws_run(s, k4 + 1, w);
        let acc2 = acc.push((key, x));
        assert forall|q: int, p: int|
            #![trigger acc2[p], r[q]]
            0 <= q < r.len() && 0 <= p < acc2.len() implies acc2[p].0 != r[q].0 by {
            assert(r[q] == m[q + 1]);
            if p < acc.len() {
                assert(acc2[p] == acc[p]);
            } else {
                assert(m[0].0 != m[q + 1].0);
            }
        }
        assert(keys_unique(r)) by {
            assert forall|a1: int, b1: int|
                0 <= a1 < r.len() && 0 <= b1 < r.len() && a1 != b1 implies r[a1].0 != r[b1].0 by {
                assert(r[a1] == m[a1 + 1] && r[b1] == m[b1 + 1]);
            }
        }
        assert forall|q: int| 0 <= q < r.len() implies well_formed(#[trigger] r[q].1) by {
            assert(r[q] == m[q + 1]);
        }
        assert forall|q: int| 0 <= q < r.len() implies nests_within(
            #[trigger] r[q].1,
            MAX_DEPTH - d - 1,
        ) by {
            assert(r[q] == m[q + 1]);
        }
        lemma_padded_members(s, k4 + 1 + w.len(), r, acc2, d, w);
        assert(acc2 + r =~= acc + m);
    }
}

} // verus!
