//! JSON values and their compact text: the language that the repair writes.
use vstd::prelude::*;
use crate::lexer::{is_digit, is_hex};

verus! {

/// A JSON value. A number keeps its text; a string keeps the text between
/// its quotes, escapes included; an object keeps its members in order, each
/// key as the text between its quotes.
pub enum Json {
    Null,
    Bool(bool),
    Number(Seq<u8>),
    Str(Seq<u8>),
    Array(Seq<Json>),
    Object(Seq<(Seq<u8>, Json)>),
}

pub open spec fn lit_null() -> Seq<u8> {
    seq![0x6Eu8, 0x75u8, 0x6Cu8, 0x6Cu8]
}

pub open spec fn lit_true() -> Seq<u8> {
    seq![0x74u8, 0x72u8, 0x75u8, 0x65u8]
}

pub open spec fn lit_false() -> Seq<u8> {
    seq![0x66u8, 0x61u8, 0x6Cu8, 0x73u8, 0x65u8]
}

/// `t` with the exponent marker `E` written `e`.
pub open spec fn lower_exp(t: Seq<u8>) -> Seq<u8> {
    Seq::new(t.len(), |i: int| if t[i] == 0x45u8 { 0x65u8 } else { t[i] })
}

/// The compact text of `v`: no whitespace, `,` between items and members,
/// `:` after each key. With `lower`, numbers write their exponent marker `e`.
pub open spec fn render(v: Json, lower: bool) -> Seq<u8>
    decreases v,
{
    match v {
        Json::Null => lit_null(),
        Json::Bool(b) => if b {
            lit_true()
        } else {
            lit_false()
        },
        Json::Number(t) => if lower {
            lower_exp(t)
        } else {
            t
        },
        Json::Str(c) => seq![0x22u8] + c + seq![0x22u8],
        Json::Array(items) => seq![0x5Bu8] + render_items(items, false, lower) + seq![0x5Du8],
        Json::Object(ms) => seq![0x7Bu8] + render_members(ms, false, lower) + seq![0x7Du8],
    }
}

/// Items, each after a comma except the first when `has` is false.
pub open spec fn render_items(items: Seq<Json>, has: bool, lower: bool) -> Seq<u8>
    decreases items,
{
    if items.len() == 0 {
        seq![]
    } else {
        (if has {
            seq![0x2Cu8]
        } else {
            seq![]
        }) + render(items[0], lower) + render_items(items.subrange(1, items.len() as int), true, lower)
    }
}

/// Members `"key":value`, each after a comma except the first when `has` is
/// false.
pub open spec fn render_members(ms: Seq<(Seq<u8>, Json)>, has: bool, lower: bool) -> Seq<u8>
    decreases ms,
{
    if ms.len() == 0 {
        seq![]
    } else {
        (if has {
            seq![0x2Cu8]
        } else {
            seq![]
        }) + seq![0x22u8] + ms[0].0 + seq![0x22u8, 0x3Au8] + render(ms[0].1, lower) + render_members(
            ms.subrange(1, ms.len() as int),
            true,
            lower,
        )
    }
}

/// The first index at or after `i` whose byte is not a digit (or the length).
pub open spec fn digits_end(t: Seq<u8>, i: int) -> int
    decreases t.len() - i,
{
    if 0 <= i < t.len() && is_digit(t[i]) {
        digits_end(t, i + 1)
    } else {
        i
    }
}

/// Length of the `-` that a JSON number may start with.
pub open spec fn num_sign(t: Seq<u8>) -> int {
    if t.len() > 0 && t[0] == 0x2Du8 {
        1
    } else {
        0
    }
}

/// End of the integer digits.
pub open spec fn num_int_end(t: Seq<u8>) -> int {
    digits_end(t, num_sign(t))
}

pub open spec fn num_has_frac(t: Seq<u8>) -> bool {
    num_int_end(t) < t.len() && t[num_int_end(t)] == 0x2Eu8
}

/// End of the fraction (its `.` included), or of the integer digits.
pub open spec fn num_frac_end(t: Seq<u8>) -> int {
    if num_has_frac(t) {
        digits_end(t, num_int_end(t) + 1)
    } else {
        num_int_end(t)
    }
}

pub open spec fn num_has_exp(t: Seq<u8>) -> bool {
    let j = num_frac_end(t);
    j < t.len() && (t[j] == 0x65u8 || t[j] == 0x45u8)
}

/// Where the exponent digits start (after the marker and its sign).
pub open spec fn num_exp_digits(t: Seq<u8>) -> int {
    let j = num_frac_end(t);
    if !num_has_exp(t) {
        j
    } else if j + 1 < t.len() && (t[j + 1] == 0x2Bu8 || t[j + 1] == 0x2Du8) {
        j + 2
    } else {
        j + 1
    }
}

/// The JSON number grammar: `-?(0|[1-9][0-9]*)(\.[0-9]+)?([eE][+-]?[0-9]+)?`.
pub open spec fn json_number(t: Seq<u8>) -> bool {
    let b = num_sign(t);
    let i = num_int_end(t);
    let k = num_exp_digits(t);
    &&& i > b
    &&& (t[b] != 0x30u8 || i == b + 1)
    &&& (num_has_frac(t) ==> num_frac_end(t) > i + 1)
    &&& (num_has_exp(t) ==> digits_end(t, k) > k)
    &&& digits_end(t, k) == t.len()
}

/// The text between the quotes of a JSON string, from `i`: bytes other than
/// control bytes, `"` and `\`, and the escapes `\" \\ \/ \b \f \n \r \t` and
/// `\u` with four hex digits.
pub open spec fn string_units(c: Seq<u8>, i: int) -> bool
    decreases c.len() - i,
{
    if i < 0 || i >= c.len() {
        i == c.len()
    } else if c[i] == 0x5Cu8 {
        if i + 1 < c.len() && (c[i + 1] == 0x22u8 || c[i + 1] == 0x5Cu8 || c[i + 1] == 0x2Fu8
            || c[i + 1] == 0x62u8 || c[i + 1] == 0x66u8 || c[i + 1] == 0x6Eu8 || c[i + 1] == 0x72u8
            || c[i + 1] == 0x74u8) {
            string_units(c, i + 2)
        } else if i + 5 < c.len() && c[i + 1] == 0x75u8 && is_hex(c[i + 2]) && is_hex(c[i + 3])
            && is_hex(c[i + 4]) && is_hex(c[i + 5]) {
            string_units(c, i + 6)
        } else {
            false
        }
    } else {
        c[i] >= 0x20u8 && c[i] != 0x22u8 && string_units(c, i + 1)
    }
}

pub open spec fn json_string(c: Seq<u8>) -> bool {
    string_units(c, 0)
}

/// `v` is a JSON value: its numbers and strings follow the grammar.
pub open spec fn json_value(v: Json) -> bool
    decreases v,
{
    match v {
        Json::Number(t) => json_number(t),
        Json::Str(c) => json_string(c),
        Json::Array(items) => json_items(items),
        Json::Object(ms) => json_members(ms),
        _ => true,
    }
}

pub open spec fn json_items(items: Seq<Json>) -> bool
    decreases items,
{
    items.len() > 0 ==> json_value(items[0]) && json_items(items.subrange(1, items.len() as int))
}

pub open spec fn json_members(ms: Seq<(Seq<u8>, Json)>) -> bool
    decreases ms,
{
    ms.len() > 0 ==> json_string(ms[0].0) && json_value(ms[0].1) && json_members(
        ms.subrange(1, ms.len() as int),
    )
}

/// At most `k` objects and arrays are open at once inside `v`.
pub open spec fn nests_within(v: Json, k: int) -> bool
    decreases v,
{
    match v {
        Json::Array(items) => k >= 1 && items_nest_within(items, k - 1),
        Json::Object(ms) => k >= 1 && members_nest_within(ms, k - 1),
        _ => true,
    }
}

pub open spec fn items_nest_within(items: Seq<Json>, k: int) -> bool
    decreases items,
{
    items.len() > 0 ==> nests_within(items[0], k) && items_nest_within(
        items.subrange(1, items.len() as int),
        k,
    )
}

pub open spec fn members_nest_within(ms: Seq<(Seq<u8>, Json)>, k: int) -> bool
    decreases ms,
{
    ms.len() > 0 ==> nests_within(ms[0].1, k) && members_nest_within(
        ms.subrange(1, ms.len() as int),
        k,
    )
}

/// The bytes `x` stand in `s` from `p`.
pub open spec fn text_at(s: Seq<u8>, p: int, x: Seq<u8>) -> bool {
    0 <= p && p + x.len() <= s.len() && s.subrange(p, p + x.len()) == x
}

/// The whitespace that JSON allows between tokens: space, tab, line feed
/// and carriage return.
pub open spec fn is_json_ws(b: u8) -> bool {
    b == 0x20u8 || b == 0x09u8 || b == 0x0Au8 || b == 0x0Du8
}

/// The first index at or after `p` that does not hold JSON whitespace (or
/// the length of `s`).
pub open spec fn ws_end(s: Seq<u8>, p: int) -> int
    decreases s.len() - p,
{
    if 0 <= p < s.len() && is_json_ws(s[p]) {
        ws_end(s, p + 1)
    } else {
        p
    }
}

/// Where the JSON text of `v` that starts at `p` ends, whitespace between
/// its tokens included; `None` when `s` does not hold such a text there.
pub open spec fn value_span(s: Seq<u8>, p: int, v: Json) -> Option<int>
    decreases v,
{
    match v {
        Json::Array(items) => if 0 <= p < s.len() && s[p] == 0x5Bu8 {
            match items_span(s, p + 1, items, false) {
                Some(r) => if r < s.len() && s[r] == 0x5Du8 {
                    Some(r + 1)
                } else {
                    None
                },
                None => None,
            }
        } else {
            None
        },
        Json::Object(ms) => if 0 <= p < s.len() && s[p] == 0x7Bu8 {
            match members_span(s, p + 1, ms, false) {
                Some(r) => if r < s.len() && s[r] == 0x7Du8 {
                    Some(r + 1)
                } else {
                    None
                },
                None => None,
            }
        } else {
            None
        },
        _ => if text_at(s, p, render(v, false)) {
            Some(p + render(v, false).len())
        } else {
            None
        },
    }
}

/// Where the whitespace and, when `has`, the comma before an item or member
/// that starts after `p` end.
pub open spec fn gap_span(s: Seq<u8>, p: int, has: bool) -> Option<int> {
    let a = ws_end(s, p);
    if has {
        if 0 <= a < s.len() && s[a] == 0x2Cu8 {
            Some(ws_end(s, a + 1))
        } else {
            None
        }
    } else {
        Some(a)
    }
}

/// Where the items that follow `p` end, with the whitespace after the last
/// one: each item is preceded by whitespace, and by a comma too unless it is
/// the first and `has` is false.
pub open spec fn items_span(s: Seq<u8>, p: int, items: Seq<Json>, has: bool) -> Option<int>
    decreases items,
{
    if items.len() == 0 {
        Some(ws_end(s, p))
    } else {
        match gap_span(s, p, has) {
            None => None,
            Some(a) => match value_span(s, a, items[0]) {
                None => None,
                Some(b) => items_span(s, b, items.subrange(1, items.len() as int), true),
            },
        }
    }
}

/// Where the members `"key" : value` that follow `p` end, with the
/// whitespace after the last one, laid out as `items_span` lays out items.
pub open spec fn members_span(s: Seq<u8>, p: int, ms: Seq<(Seq<u8>, Json)>, has: bool) -> Option<
    int,
>
    decreases ms,
{
    if ms.len() == 0 {
        Some(ws_end(s, p))
    } else {
        match gap_span(s, p, has) {
            None => None,
            Some(a) => {
                let key = seq![0x22u8] + ms[0].0 + seq![0x22u8];
                let c = ws_end(s, a + key.len());
                if text_at(s, a, key) && 0 <= c < s.len() && s[c] == 0x3Au8 {
                    match value_span(s, ws_end(s, c + 1), ms[0].1) {
                        None => None,
                        Some(b) => members_span(s, b, ms.subrange(1, ms.len() as int), true),
                    }
                } else {
                    None
                }
            },
        }
    }
}

/// `s` is a JSON document of `v`: whitespace, a text of `v`, whitespace.
pub open spec fn json_document(s: Seq<u8>, v: Json) -> bool {
    match value_span(s, ws_end(s, 0), v) {
        Some(b) => ws_end(s, b) == s.len(),
        None => false,
    }
}

} // verus!
