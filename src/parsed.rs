//! What every tree that parsing yields satisfies.
use vstd::prelude::*;
use crate::value::{Json, ParseError};
use crate::grammar::{
    MAX_DEPTH, is_digit, ws_len, digits_len, has_fraction, fraction_end, exponent_end,
    number_token, string_token, has_key, insert_member, value_at, object_at, members_at,
    array_at, elements_at, document,
};
use crate::parser::keys_unique;
use crate::round_trip::{well_formed, nests_within, is_number_text};

verus! {

/// Every tree that parsing yields has an object or an array at its root, is
/// well formed (each number is the text of one number, and no object holds
/// a key twice), and is nested no deeper than the parser allows.
pub proof fn lemma_parsed_well_formed(s: Seq<char>, v: Json)
    requires
        document(s) == Ok::<Json, ParseError>(v),
    ensures
        v is Array || v is Object,
        well_formed(v),
        nests_within(v, MAX_DEPTH as int),
{
    let j = ws_len(s, 0) as int;
    if s[j] == '{' {
        lemma_object_parsed(s, j, 0);
    } else {
        lemma_array_parsed(s, j, 0);
    }
}

/// The characters from `i` to `e` read as a number whose digit run from `p`
/// ends by `e`: the run is the same in the slice.
proof fn lemma_digits_in_slice(s: Seq<char>, i: int, e: int, p: int)
    requires
        0 <= i <= e <= s.len(),
        0 <= p <= e - i,
        i + p + digits_len(s, i + p) <= e,
    ensures
        digits_len(s.subrange(i, e), p) == digits_len(s, i + p),
    decreases e - i - p,
{
    let t = s.subrange(i, e);
    if p < e - i {
        assert(t[p] == s[i + p]);
        if is_digit(s[i + p]) {
            lemma_digits_in_slice(s, i, e, p + 1);
        }
    }
}

proof fn lemma_number_text(s: Seq<char>, i: int)
    requires
        number_token(s, i) is Ok,
    ensures
        is_number_text(number_token(s, i)->Ok_0.0),
{
    let digits_at = if 0 <= i < s.len() && s[i] == '-' {
        i + 1
    } else {
        i
    };
    let int_end = digits_at + digits_len(s, digits_at);
    let frac_end = fraction_end(s, int_end)->Ok_0;
    let e = exponent_end(s, frac_end)->Ok_0;
    let t = s.subrange(i, e);
    assert(number_token(s, i)->Ok_0.0 == t);
    lemma_digits_len_step(s, digits_at);
    if has_fraction(s, int_end) {
        lemma_digits_len_step(s, int_end + 1);
    }
    let q = if frac_end + 1 < s.len() && (s[frac_end + 1] == '+' || s[frac_end + 1] == '-') {
        frac_end + 2
    } else {
        frac_end + 1
    };
    if 0 <= frac_end < s.len() && (s[frac_end] == 'e' || s[frac_end] == 'E') {
        lemma_digits_len_step(s, q);
        assert(e == q + digits_len(s, q));
    }
    assert(i <= digits_at < int_end <= frac_end <= e <= s.len());
    lemma_digits_in_slice(s, i, e, digits_at - i);
    assert(t[0] == s[i]);
    assert(t[digits_at - i] == s[digits_at]);
    if int_end < e {
        assert(t[int_end - i] == s[int_end]);
    }
    assert(has_fraction(t, int_end - i) == has_fraction(s, int_end));
    if has_fraction(s, int_end) {
        lemma_digits_in_slice(s, i, e, int_end + 1 - i);
    }
    assert(fraction_end(t, int_end - i) == Ok::<int, ParseError>(frac_end - i));
    if 0 <= frac_end < s.len() && (s[frac_end] == 'e' || s[frac_end] == 'E') {
        assert(t[frac_end - i] == s[frac_end]);
        assert(frac_end + 1 < e);
        assert(t[frac_end + 1 - i] == s[frac_end + 1]);
        lemma_digits_in_slice(s, i, e, q - i);
        assert(exponent_end(t, frac_end - i) == Ok::<int, ParseError>(e - i));
    } else {
        assert(exponent_end(t, frac_end - i) == Ok::<int, ParseError>(e - i));
    }
    assert(t.subrange(0, e - i) =~= t);
}

proof fn lemma_digits_len_step(s: Seq<char>, i: int)
    ensures
        digits_len(s, i) > 0 ==> 0 <= i && i + digits_len(s, i) <= s.len(),
    decreases s.len() - i,
{
    if 0 <= i < s.len() && is_digit(s[i]) {
        lemma_digits_len_step(s, i + 1);
    }
}

proof fn lemma_value_parsed(s: Seq<char>, i: int, d: int)
    requires
        0 <= d,
    ensures
        value_at(s, i, d) is Ok ==> well_formed(value_at(s, i, d)->Ok_0.0) && nests_within(
            value_at(s, i, d)->Ok_0.0,
            MAX_DEPTH - d,
        ),
    decreases s.len() - i, 1int,
{
    let j = i + ws_len(s, i);
    if 0 <= j < s.len() {
        let c = s[j];
        if c == '{' {
            lemma_object_parsed(s, j, d);
        } else if c == '[' {
            lemma_array_parsed(s, j, d);
        } else if c == '"' || c == 't' || c == 'f' || c == 'n' {
        } else if (is_digit(c) || c == '-') && number_token(s, j) is Ok {
            lemma_number_text(s, j);
        }
    }
}

proof fn lemma_object_parsed(s: Seq<char>, j: int, d: int)
    requires
        0 <= d,
    ensures
        object_at(s, j, d) is Ok ==> object_at(s, j, d)->Ok_0.0 is Object && well_formed(
            object_at(s, j, d)->Ok_0.0,
        ) && nests_within(object_at(s, j, d)->Ok_0.0, MAX_DEPTH - d),
    decreases s.len() - j, 0int,
{
    if d < MAX_DEPTH {
        let k = j + 1 + ws_len(s, j + 1);
        if k < s.len() && s[k] != '}' {
            lemma_members_parsed(s, k, d, Seq::empty());
        }
    }
}

proof fn lemma_array_parsed(s: Seq<char>, j: int, d: int)
    requires
        0 <= d,
    ensures
        array_at(s, j, d) is Ok ==> array_at(s, j, d)->Ok_0.0 is Array && well_formed(
            array_at(s, j, d)->Ok_0.0,
        ) && nests_within(array_at(s, j, d)->Ok_0.0, MAX_DEPTH - d),
    decreases s.len() - j, 0int,
{
    if d < MAX_DEPTH {
        let k = j + 1 + ws_len(s, j + 1);
        if k < s.len() && s[k] != ']' {
            lemma_elements_parsed(s, k, d, Seq::empty());
        }
    }
}

/// Members with distinct keys and sound values stay so when one is added.
proof fn lemma_insert_keeps(m: Seq<(Seq<char>, Json)>, k: Seq<char>, v: Json, n: int)
    requires
        keys_unique(m),
        forall|q: int| 0 <= q < m.len() ==> well_formed(#[trigger] m[q].1) && nests_within(m[q].1, n),
        well_formed(v),
        nests_within(v, n),
    ensures
        keys_unique(insert_member(m, k, v)),
        forall|q: int|
            0 <= q < insert_member(m, k, v).len() ==> well_formed(#[trigger] insert_member(m, k, v)[q].1)
                && nests_within(insert_member(m, k, v)[q].1, n),
{
    let u = insert_member(m, k, v);
    if has_key(m, k) {
        let c = choose|i: int| 0 <= i < m.len() && m[i].0 == k;
        assert(u == m.update(c, (k, v)));
        assert forall|a: int, b: int| 0 <= a < u.len() && 0 <= b < u.len() && a != b implies u[a].0
            != u[b].0 by {
            assert(u[a].0 == m[a].0 && u[b].0 == m[b].0);
        }
    } else {
        assert(u == m.push((k, v)));
        assert forall|a: int, b: int| 0 <= a < u.len() && 0 <= b < u.len() && a != b implies u[a].0
            != u[b].0 by {
            if a == m.len() {
                assert(m[b].0 != k);
            } else if b == m.len() {
                assert(m[a].0 != k);
            }
        }
    }
}

proof fn lemma_members_parsed(s: Seq<char>, k: int, d: int, acc: Seq<(Seq<char>, Json)>)
    requires
        0 <= d < MAX_DEPTH,
        keys_unique(acc),
        forall|q: int|
            0 <= q < acc.len() ==> well_formed(#[trigger] acc[q].1) && nests_within(
                acc[q].1,
                MAX_DEPTH - d - 1,
            ),
    ensures
        members_at(s, k, d, acc) is Ok ==> members_at(s, k, d, acc)->Ok_0.0 is Object
            && well_formed(members_at(s, k, d, acc)->Ok_0.0) && nests_within(
            members_at(s, k, d, acc)->Ok_0.0,
            MAX_DEPTH - d,
        ),
    decreases s.len() - k, 2int,
{
    if string_token(s, k) is Ok {
        let key = string_token(s, k)->Ok_0.0;
        let k1 = k + string_token(s, k)->Ok_0.1;
        let k2 = k1 + ws_len(s, k1);
        if k2 < s.len() && s[k2] == ':' {
            lemma_value_parsed(s, k2 + 1, d + 1);
            if value_at(s, k2 + 1, d + 1) is Ok {
                let v = value_at(s, k2 + 1, d + 1)->Ok_0.0;
                let acc2 = insert_member(acc, key, v);
                lemma_insert_keeps(acc, key, v, MAX_DEPTH - d - 1);
                let k3 = k2 + 1 + value_at(s, k2 + 1, d + 1)->Ok_0.1;
                let k4 = k3 + ws_len(s, k3);
                if k4 < s.len() && s[k4] == ',' {
                    let k5 = k4 + 1 + ws_len(s, k4 + 1);
                    if k5 < s.len() && s[k5] != '}' {
                        lemma_members_parsed(s, k5, d, acc2);
                    }
                }
            }
        }
    }
}

proof fn lemma_elements_parsed(s: Seq<char>, k: int, d: int, acc: Seq<Json>)
    requires
        0 <= d < MAX_DEPTH,
        forall|q: int|
            0 <= q < acc.len() ==> well_formed(#[trigger] acc[q]) && nests_within(
                acc[q],
                MAX_DEPTH - d - 1,
            ),
    ensures
        elements_at(s, k, d, acc) is Ok ==> elements_at(s, k, d, acc)->Ok_0.0 is Array
            && well_formed(elements_at(s, k, d, acc)->Ok_0.0) && nests_within(
            elements_at(s, k, d, acc)->Ok_0.0,
            MAX_DEPTH - d,
        ),
    decreases s.len() - k, 2int,
{
    if 0 <= k < s.len() {
        lemma_value_parsed(s, k, d + 1);
        if value_at(s, k, d + 1) is Ok {
            let v = value_at(s, k, d + 1)->Ok_0.0;
            let acc2 = acc.push(v);
            assert forall|q: int| 0 <= q < acc2.len() implies well_formed(#[trigger] acc2[q])
                && nests_within(acc2[q], MAX_DEPTH - d - 1) by {
                if q < acc.len() {
                    assert(acc2[q] == acc[q]);
                }
            }
            let k1 = k + value_at(s, k, d + 1)->Ok_0.1;
            let k2 = k1 + ws_len(s, k1);
            if k2 < s.len() && s[k2] == ',' {
                let k3 = k2 + 1 + ws_len(s, k2 + 1);
                if k3 < s.len() && s[k3] != ']' {
                    lemma_elements_parsed(s, k3, d, acc2);
                }
            }
        }
    }
}

} // verus!
