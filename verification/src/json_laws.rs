//! What the repair writes is the compact text of a JSON value that opens at
//! most `MAX_DEPTH` containers at once; a JSON number is written as itself,
//! with `e` for its exponent marker; a JSON string's contents read back as
//! themselves.
use vstd::prelude::*;
use crate::lexer::{is_hex, is_digit, BACKSLASH, DQUOTE};
use crate::json::{
    Json, render, render_items, render_members, json_value, json_items, json_members,
    json_string, string_units, json_number, digits_end, num_sign, num_int_end, num_has_frac,
    num_frac_end, num_has_exp, num_exp_digits, nests_within, items_nest_within,
    members_nest_within, lower_exp, text_at,
};
use crate::parser::{
    number_text, number_parts, sign_len, find_exp, find_dot, skip_zeros, mantissa_ok,
    exponent_ok, exp_digits_start, sign_text, int_text, frac_text, exp_text,
    lemma_find_exp_bounds, lemma_find_dot_facts, lemma_skip_zeros_bounds, escape_byte, escape_bytes, hex_char, quoted, string_body, escape_at, unicode_digits,
    lemma_escape_at_bounds, value_at, members, member_at, elements, key_at, value_search,
    string_at, word_text, number_or_word_text, null_text, true_text, false_text,
    is_value_start_byte, can_start_key_byte, is_number_start_byte, lemma_value_at_found,
    repair_text, MAX_DEPTH,
};
use crate::lexer::{
    token_end, skip_trivia_from, structural_start, strip_bom, fence_start, fence_end, ends_token,
    is_ws, is_alpha,
};

verus! {

// ---------------------------------------------------------------------------
// String contents
// ---------------------------------------------------------------------------

/// Units of `b` read the same after `a`.
pub proof fn lemma_string_units_shift(a: Seq<u8>, b: Seq<u8>, j: int)
    requires
        0 <= j,
    ensures
        string_units(a + b, a.len() + j) == string_units(b, j),
    decreases b.len() - j,
{
    let c = a + b;
    let i = a.len() + j;
    if j < b.len() {
        assert(c[i] == b[j]);
        if i + 1 < c.len() {
            assert(c[i + 1] == b[j + 1]);
        }
        if i + 5 < c.len() {
            assert(c[i + 2] == b[j + 2] && c[i + 3] == b[j + 3] && c[i + 4] == b[j + 4] && c[i + 5]
                == b[j + 5]);
        }
        lemma_string_units_shift(a, b, j + 1);
        if j + 2 <= b.len() {
            lemma_string_units_shift(a, b, j + 2);
        }
        if j + 6 <= b.len() {
            lemma_string_units_shift(a, b, j + 6);
        }
    }
}

/// String contents concatenate.
pub proof fn lemma_string_units_concat(a: Seq<u8>, b: Seq<u8>, i: int)
    requires
        0 <= i,
        string_units(a, i),
        json_string(b),
    ensures
        string_units(a + b, i),
    decreases a.len() - i,
{
    let c = a + b;
    if i >= a.len() {
        assert(i == a.len());
        lemma_string_units_shift(a, b, 0);
    } else {
        assert(c[i] == a[i]);
        if a[i] == BACKSLASH {
            assert(c[i + 1] == a[i + 1]);
            if i + 1 < a.len() && (a[i + 1] == 0x22u8 || a[i + 1] == 0x5Cu8 || a[i + 1] == 0x2Fu8
                || a[i + 1] == 0x62u8 || a[i + 1] == 0x66u8 || a[i + 1] == 0x6Eu8 || a[i + 1]
                == 0x72u8 || a[i + 1] == 0x74u8) {
                lemma_string_units_concat(a, b, i + 2);
            } else {
                assert(c[i + 2] == a[i + 2] && c[i + 3] == a[i + 3] && c[i + 4] == a[i + 4] && c[i
                    + 5] == a[i + 5]);
                lemma_string_units_concat(a, b, i + 6);
            }
        } else {
            lemma_string_units_concat(a, b, i + 1);
        }
    }
}

pub proof fn lemma_json_string_concat(a: Seq<u8>, b: Seq<u8>)
    requires
        json_string(a),
        json_string(b),
    ensures
        json_string(a + b),
{
    lemma_string_units_concat(a, b, 0);
}

/// Two-byte escapes `\x` for `x` one of `" \ / b f n r t`.
pub proof fn lemma_short_escape_string(x: u8)
    requires
        x == 0x22u8 || x == 0x5Cu8 || x == 0x2Fu8 || x == 0x62u8 || x == 0x66u8 || x == 0x6Eu8
            || x == 0x72u8 || x == 0x74u8,
    ensures
        json_string(seq![BACKSLASH, x]),
{
    let c = seq![BACKSLASH, x];
    assert(string_units(c, 2));
}

pub proof fn lemma_unicode_escape_string(h: Seq<u8>)
    requires
        h.len() == 4,
        forall|i: int| 0 <= i < 4 ==> is_hex(#[trigger] h[i]),
    ensures
        json_string(seq![BACKSLASH, 0x75u8] + h),
{
    let c = seq![BACKSLASH, 0x75u8] + h;
    assert(c[2] == h[0] && c[3] == h[1] && c[4] == h[2] && c[5] == h[3]);
    assert(is_hex(h[0]) && is_hex(h[1]) && is_hex(h[2]) && is_hex(h[3]));
    assert(string_units(c, 6));
}

pub proof fn lemma_escape_byte_string(b: u8)
    ensures
        json_string(escape_byte(b)),
{
    if b == DQUOTE || b == BACKSLASH || b == 0x0Au8 || b == 0x0Du8 || b == 0x09u8 {
        if b == DQUOTE {
            lemma_short_escape_string(0x22u8);
        } else if b == BACKSLASH {
            lemma_short_escape_string(0x5Cu8);
        } else if b == 0x0Au8 {
            lemma_short_escape_string(0x6Eu8);
        } else if b == 0x0Du8 {
            lemma_short_escape_string(0x72u8);
        } else {
            lemma_short_escape_string(0x74u8);
        }
    } else if b < 0x20u8 {
        let h = seq![0x30u8, 0x30u8, hex_char(b / 16), hex_char(b % 16)];
        assert(b / 16 < 16 && b % 16 < 16);
        assert(is_hex(hex_char(b / 16)) && is_hex(hex_char(b % 16)));
        assert forall|i: int| 0 <= i < 4 implies is_hex(#[trigger] h[i]) by {}
        lemma_unicode_escape_string(h);
        assert(escape_byte(b) =~= seq![BACKSLASH, 0x75u8] + h);
    } else {
        let c = seq![b];
        assert(string_units(c, 1));
    }
}

pub proof fn lemma_escape_bytes_string(t: Seq<u8>)
    ensures
        json_string(escape_bytes(t)),
    decreases t.len(),
{
    if t.len() > 0 {
        lemma_escape_bytes_string(t.drop_last());
        lemma_escape_byte_string(t.last());
        lemma_json_string_concat(escape_bytes(t.drop_last()), escape_byte(t.last()));
    }
}

pub proof fn lemma_unicode_digits_hex(s: Seq<u8>, q: int, e: int, k: nat)
    ensures
        unicode_digits(s, q, e, k).1.len() == k,
        forall|i: int|
            0 <= i < k ==> is_hex(#[trigger] unicode_digits(s, q, e, k).1[i]),
    decreases k,
{
    if k > 0 {
        if 0 <= q < e && is_hex(s[q]) {
            lemma_unicode_digits_hex(s, q + 1, e, (k - 1) as nat);
            let r = unicode_digits(s, q + 1, e, (k - 1) as nat).1;
            assert forall|i: int| 0 <= i < k implies is_hex(
                #[trigger] unicode_digits(s, q, e, k).1[i],
            ) by {
                if i > 0 {
                    assert(unicode_digits(s, q, e, k).1[i] == r[i - 1]);
                }
            }
        } else {
            lemma_unicode_digits_hex(s, q, e, (k - 1) as nat);
            let r = unicode_digits(s, q, e, (k - 1) as nat).1;
            assert forall|i: int| 0 <= i < k implies is_hex(
                #[trigger] unicode_digits(s, q, e, k).1[i],
            ) by {
                if i > 0 {
                    assert(unicode_digits(s, q, e, k).1[i] == r[i - 1]);
                }
            }
        }
    }
}

pub proof fn lemma_escape_at_string(s: Seq<u8>, q: int, e: int)
    ensures
        json_string(escape_at(s, q, e).1),
{
    if !(0 <= q < e) {
        lemma_short_escape_string(0x5Cu8);
    } else {
        let c = s[q];
        if c == DQUOTE || c == BACKSLASH || c == 0x2Fu8 || c == 0x62u8 || c == 0x66u8 || c
            == 0x6Eu8 || c == 0x72u8 || c == 0x74u8 {
            lemma_short_escape_string(c);
        } else if c == 0x75u8 {
            lemma_unicode_digits_hex(s, q + 1, e, 4);
            lemma_unicode_escape_string(unicode_digits(s, q + 1, e, 4).1);
        } else {
            lemma_escape_byte_string(c);
        }
    }
}

/// The text of a string from `q` is its contents and a closing quote.
pub proof fn lemma_string_body_string(s: Seq<u8>, q: int, e: int, quote: u8)
    ensures
        ({
            let body = string_body(s, q, e, quote).1;
            &&& body.len() >= 1
            &&& body.last() == DQUOTE
            &&& json_string(body.drop_last())
        }),
    decreases e - q,
{
    let body = string_body(s, q, e, quote).1;
    if !(0 <= q < e) || s[q] == quote {
        assert(body.drop_last() =~= Seq::<u8>::empty());
    } else if s[q] == BACKSLASH {
        lemma_escape_at_bounds(s, q + 1, e);
        let (q2, esc) = escape_at(s, q + 1, e);
        let rest = string_body(s, q2, e, quote).1;
        lemma_string_body_string(s, q2, e, quote);
        lemma_escape_at_string(s, q + 1, e);
        lemma_json_string_concat(esc, rest.drop_last());
        assert(body.drop_last() =~= esc + rest.drop_last());
    } else {
        let rest = string_body(s, q + 1, e, quote).1;
        lemma_string_body_string(s, q + 1, e, quote);
        lemma_escape_byte_string(s[q]);
        lemma_json_string_concat(escape_byte(s[q]), rest.drop_last());
        assert(body.drop_last() =~= escape_byte(s[q]) + rest.drop_last());
    }
}


// ---------------------------------------------------------------------------
// Numbers
// ---------------------------------------------------------------------------

pub open spec fn all_digits_in(x: Seq<u8>, i: int, j: int) -> bool {
    forall|m: int| i <= m < j ==> is_digit(#[trigger] x[m])
}

pub proof fn lemma_digits_end_at(x: Seq<u8>, i: int, j: int)
    requires
        0 <= i <= j <= x.len(),
        all_digits_in(x, i, j),
        j == x.len() || !is_digit(x[j]),
    ensures
        digits_end(x, i) == j,
    decreases j - i,
{
    if i < j {
        lemma_digits_end_at(x, i + 1, j);
    }
}

/// Where the digits of an exponent part start: after `e` and its sign.
pub open spec fn exp_part_digits(ex: Seq<u8>) -> int {
    if ex.len() > 1 && (ex[1] == 0x2Bu8 || ex[1] == 0x2Du8) {
        2
    } else {
        1
    }
}

/// A sign, integer digits, a fraction and an exponent, each of the JSON
/// shape, make a JSON number with a lowercase exponent marker.
pub proof fn lemma_json_number_shape(sg: Seq<u8>, ip: Seq<u8>, fp: Seq<u8>, ex: Seq<u8>)
    requires
        sg == Seq::<u8>::empty() || sg == seq![0x2Du8],
        ip.len() > 0,
        all_digits_in(ip, 0, ip.len() as int),
        ip[0] != 0x30u8 || ip.len() == 1,
        fp.len() == 0 || (fp.len() >= 2 && fp[0] == 0x2Eu8 && all_digits_in(fp, 1, fp.len() as int)),
        ex.len() == 0 || (ex[0] == 0x65u8 && exp_part_digits(ex) < ex.len() && all_digits_in(
            ex,
            exp_part_digits(ex),
            ex.len() as int,
        )),
    ensures
        json_number(sg + ip + fp + ex),
        lower_exp(sg + ip + fp + ex) == sg + ip + fp + ex,
{
    let x = sg + ip + fp + ex;
    let n = x.len() as int;
    let b = sg.len() as int;
    let i = b + ip.len();
    let j = i + fp.len();
    assert forall|m: int| b <= m < i implies is_digit(#[trigger] x[m]) by {
        assert(x[m] == ip[m - b]);
    }
    if fp.len() > 0 {
        assert(x[i] == 0x2Eu8);
    } else if ex.len() > 0 {
        assert(x[i] == 0x65u8);
    }
    lemma_digits_end_at(x, b, i);
    if b == 0 {
        assert(x[0] == ip[0]);
    } else {
        assert(x[0] == 0x2Du8);
    }
    assert(x[b] == ip[0]);
    if fp.len() > 0 {
        assert forall|m: int| i + 1 <= m < j implies is_digit(#[trigger] x[m]) by {
            assert(x[m] == fp[m - i]);
        }
        if ex.len() > 0 {
            assert(x[j] == 0x65u8);
        }
        lemma_digits_end_at(x, i + 1, j);
    }
    if ex.len() > 0 {
        let k0 = exp_part_digits(ex);
        assert(x[j] == 0x65u8);
        if ex.len() > 1 {
            assert(x[j + 1] == ex[1]);
        }
        assert forall|m: int| j + k0 <= m < n implies is_digit(#[trigger] x[m]) by {
            assert(x[m] == ex[m - j]);
        }
        lemma_digits_end_at(x, j + k0, n);
    }
    assert forall|m: int| 0 <= m < n implies #[trigger] x[m] != 0x45u8 by {
        if m < b {
            assert(x[m] == sg[m]);
        } else if m < i {
            assert(x[m] == ip[m - b]);
        } else if m < j {
            assert(x[m] == fp[m - i]);
        } else {
            assert(x[m] == ex[m - j]);
            if m - j >= exp_part_digits(ex) {
                assert(is_digit(ex[m - j]));
            }
        }
    }
    assert(lower_exp(x) =~= x);
}

/// The normal form of a number token is a JSON number written with `e`.
pub proof fn lemma_number_text_json(t: Seq<u8>)
    ensures
        number_text(t) matches Some(x) ==> json_number(x) && lower_exp(x) == x,
{
    let n = t.len() as int;
    let b = sign_len(t);
    let k = find_exp(t, b);
    let dot = find_dot(t, b, k);
    if b == n {
        lemma_json_number_shape(seq![], seq![0x30u8], seq![], seq![]);
        assert(Seq::<u8>::empty() + seq![0x30u8] + Seq::<u8>::empty() + Seq::<u8>::empty()
            =~= seq![0x30u8]);
    } else if mantissa_ok(t, b, k) && exponent_ok(t, k) {
        lemma_find_exp_bounds(t, b);
        lemma_find_dot_facts(t, b, k);
        lemma_skip_zeros_bounds(t, b, dot);
        let z = skip_zeros(t, b, dot);
        let sg = sign_text(t, b);
        let ip = int_text(t, b, dot);
        let fp = frac_text(t, dot, k);
        let ex = exp_text(t, k);
        assert(sg == Seq::<u8>::empty() || sg == seq![0x2Du8]);
        // The integer digits come before the first dot.
        assert(ip.len() > 0 && all_digits_in(ip, 0, ip.len() as int) && (ip[0] != 0x30u8
            || ip.len() == 1)) by {
            if z < dot {
                assert forall|m: int| 0 <= m < ip.len() implies is_digit(#[trigger] ip[m]) by {
                    assert(ip[m] == t[z + m]);
                    assert(t[z + m] != 0x2Eu8);
                }
                assert(ip[0] == t[z]);
                lemma_skip_zeros_stop(t, b, dot);
            }
        }
        // The fraction has no second dot.
        assert(fp.len() == 0 || (fp.len() >= 2 && fp[0] == 0x2Eu8 && all_digits_in(
            fp,
            1,
            fp.len() as int,
        ))) by {
            if dot < k {
                assert(t[dot] == 0x2Eu8);
                assert forall|m: int| 1 <= m < fp.len() implies is_digit(#[trigger] fp[m]) by {
                    if m < k - dot {
                        assert(fp[m] == t[dot + m]);
                        assert(t[dot + m] != 0x2Eu8);
                    } else {
                        assert(fp[m] == 0x30u8);
                    }
                }
            }
        }
        // The exponent has an optional sign, then at least one digit.
        assert(ex.len() == 0 || (ex[0] == 0x65u8 && exp_part_digits(ex) < ex.len()
            && all_digits_in(ex, exp_part_digits(ex), ex.len() as int))) by {
            if k < n {
                let j0 = exp_digits_start(t, k);
                if k + 1 < n {
                    assert(ex[1] == t[k + 1]);
                }
                assert forall|m: int| exp_part_digits(ex) <= m < ex.len() implies is_digit(
                    #[trigger] ex[m],
                ) by {
                    if m < n - k {
                        assert(ex[m] == t[k + m]);
                        assert(k + m >= j0);
                    } else {
                        assert(ex[m] == 0x30u8);
                    }
                }
            }
        }
        lemma_json_number_shape(sg, ip, fp, ex);
    }
}

pub proof fn lemma_skip_zeros_stop(t: Seq<u8>, i: int, k: int)
    requires
        0 <= i <= k,
    ensures
        skip_zeros(t, i, k) < k ==> t[skip_zeros(t, i, k)] != 0x30u8,
    decreases k - i,
{
    if i < k && t[i] == 0x30u8 {
        lemma_skip_zeros_stop(t, i + 1, k);
    }
}


// ---------------------------------------------------------------------------
// What the repair writes is a JSON value
// ---------------------------------------------------------------------------

/// The text of a key is a JSON string between quotes.
pub proof fn lemma_key_text(s: Seq<u8>, p: int, e: int) -> (c: Seq<u8>)
    ensures
        json_string(c),
        key_at(s, p, e).1 == seq![DQUOTE] + c + seq![DQUOTE],
{
    if s[p] == DQUOTE || s[p] == 0x27u8 {
        lemma_string_body_string(s, p + 1, e, s[p]);
        let body = string_body(s, p + 1, e, s[p]).1;
        assert(body =~= body.drop_last() + seq![DQUOTE]);
        assert(key_at(s, p, e).1 =~= seq![DQUOTE] + body.drop_last() + seq![DQUOTE]);
        body.drop_last()
    } else {
        let tok = s.subrange(p, token_end(s, p, e));
        lemma_escape_bytes_string(tok);
        escape_bytes(tok)
    }
}

/// The value a bare token stands for.
pub proof fn lemma_token_tree(tok: Seq<u8>, number: bool) -> (v: Json)
    ensures
        json_value(v),
        nests_within(v, 0),
        render(v, false) == (if number {
            number_or_word_text(tok)
        } else {
            word_text(tok)
        }),
        render(v, true) == render(v, false),
{
    lemma_escape_bytes_string(tok);
    let as_string = Json::Str(escape_bytes(tok));
    assert(render(as_string, false) =~= quoted(tok));
    if number {
        lemma_number_text_json(tok);
        match number_text(tok) {
            Some(x) => Json::Number(x),
            None => as_string,
        }
    } else {
        if word_text(tok) == true_text() {
            Json::Bool(true)
        } else if word_text(tok) == false_text() {
            Json::Bool(false)
        } else if word_text(tok) == null_text() {
            Json::Null
        } else {
            as_string
        }
    }
}

pub proof fn lemma_value_tree(s: Seq<u8>, p: int, e: int, d: int) -> (v: Json)
    requires
        e <= s.len(),
        0 <= p,
    ensures
        value_at(s, p, e, d) matches Ok((_q, found, t)) ==> (found ==> json_value(v)
            && nests_within(v, MAX_DEPTH - d) && render(v, false) == t && render(v, true) == t),
    decreases MAX_DEPTH + 1 - d, 0int, 0int,
{
    let p1 = value_search(s, p, e);
    if !(0 <= p1 < e) {
        Json::Null
    } else {
        let b = s[p1];
        if b == 0x7Bu8 || b == 0x5Bu8 {
            if d >= MAX_DEPTH {
                Json::Null
            } else if b == 0x7Bu8 {
                let ms = lemma_members_tree(s, p1 + 1, e, d + 1, false);
                Json::Object(ms)
            } else {
                let items = lemma_elements_tree(s, p1 + 1, e, d + 1, false);
                Json::Array(items)
            }
        } else if b == DQUOTE || b == 0x27u8 {
            lemma_string_body_string(s, p1 + 1, e, b);
            let body = string_body(s, p1 + 1, e, b).1;
            assert(string_at(s, p1, e).1 =~= seq![DQUOTE] + body.drop_last() + seq![DQUOTE]);
            Json::Str(body.drop_last())
        } else if is_number_start_byte(b) {
            lemma_token_tree(s.subrange(p1, token_end(s, p1, e)), true)
        } else {
            lemma_token_tree(s.subrange(p1, token_end(s, p1, e)), false)
        }
    }
}

pub proof fn lemma_members_tree(s: Seq<u8>, p: int, e: int, d: int, has: bool) -> (ms: Seq<
    (Seq<u8>, Json),
>)
    requires
        e <= s.len(),
        0 <= p,
    ensures
        members(s, p, e, d, has) matches Ok((_q, t)) ==> {
            &&& json_members(ms)
            &&& members_nest_within(ms, MAX_DEPTH - d)
            &&& render_members(ms, has, false) == t
            &&& render_members(ms, has, true) == t
        },
    decreases MAX_DEPTH + 1 - d, 1int, e - p,
{
    let p1 = skip_trivia_from(s, p, e);
    crate::lexer::lemma_skip_trivia_bounds(s, p, e);
    if p1 < e && s[p1] == 0x7Du8 {
        seq![]
    } else if p1 >= e || s[p1] == 0x5Du8 {
        seq![]
    } else if !can_start_key_byte(s[p1]) {
        crate::lexer::lemma_skip_trivia_bounds(s, p, e);
        lemma_members_tree(s, p1 + 1, e, d, has)
    } else {
        let m = lemma_member_tree(s, p1, e, d, has);
        match member_at(s, p1, e, d, has) {
            Err(_) => seq![],
            Ok((p5, entry)) => {
                if p < p5 <= e {
                    let rest = lemma_members_tree(s, p5, e, d, true);
                    lemma_render_members_cons(m, rest, has, false);
                    lemma_render_members_cons(m, rest, has, true);
                    if let Ok((q, rest_text)) = members(s, p5, e, d, true) {
                        assert(members(s, p, e, d, has) == Ok::<(int, Seq<u8>), crate::parser::RepairError>((q, entry + rest_text)));
                        assert(json_members(seq![m] + rest));
                        assert(members_nest_within(seq![m] + rest, MAX_DEPTH - d));
                        assert(render_members(seq![m] + rest, has, false) == entry + rest_text);
                    }
                    seq![m] + rest
                } else {
                    let empty = Seq::<(Seq<u8>, Json)>::empty();
                    lemma_render_members_cons(m, empty, has, false);
                    lemma_render_members_cons(m, empty, has, true);
                    assert(seq![m] + empty =~= seq![m]);
                    assert(members_nest_within(empty, MAX_DEPTH - d));
                    assert(members_nest_within(seq![m] + empty, MAX_DEPTH - d));
                    seq![m]
                }
            },
        }
    }
}

pub proof fn lemma_member_tree(s: Seq<u8>, p: int, e: int, d: int, has: bool) -> (m: (Seq<u8>, Json))
    requires
        e <= s.len(),
        0 <= p < e,
    ensures
        member_at(s, p, e, d, has) matches Ok((_q, t)) ==> {
            let single = seq![m];
            &&& json_string(m.0)
            &&& json_value(m.1)
            &&& nests_within(m.1, MAX_DEPTH - d)
            &&& render_members(single, has, false) == t
            &&& render_members(single, has, true) == t
        },
    decreases MAX_DEPTH + 1 - d, 0int, 1int,
{
    let c = lemma_key_text(s, p, e);
    let (p2, key) = key_at(s, p, e);
    crate::parser::lemma_key_at_bounds(s, p, e);
    crate::lexer::lemma_skip_trivia_bounds(s, p2, e);
    let p3 = skip_trivia_from(s, p2, e);
    let p4 = if p3 < e && s[p3] == 0x3Au8 {
        p3 + 1
    } else {
        p3
    };
    let found_v = lemma_value_tree(s, p4, e, d);
    match value_at(s, p4, e, d) {
        Err(_) => (c, Json::Null),
        Ok((_p5, found, vt)) => {
            let v = if found {
                found_v
            } else {
                Json::Null
            };
            let empty = Seq::<(Seq<u8>, Json)>::empty();
            lemma_render_members_cons((c, v), empty, has, false);
            lemma_render_members_cons((c, v), empty, has, true);
            let sep: Seq<u8> = if has {
                seq![0x2Cu8]
            } else {
                seq![]
            };
            assert(sep + key + seq![0x3Au8] + render(v, false) =~= sep + seq![0x22u8] + c + seq![
                0x22u8,
                0x3Au8,
            ] + render(v, false));
            assert(sep + key + seq![0x3Au8] + render(v, true) =~= sep + seq![0x22u8] + c + seq![
                0x22u8,
                0x3Au8,
            ] + render(v, true));
            (c, v)
        },
    }
}

pub proof fn lemma_elements_tree(s: Seq<u8>, p: int, e: int, d: int, has: bool) -> (items: Seq<
    Json,
>)
    requires
        e <= s.len(),
        0 <= p,
    ensures
        elements(s, p, e, d, has) matches Ok((_q, t)) ==> {
            &&& json_items(items)
            &&& items_nest_within(items, MAX_DEPTH - d)
            &&& render_items(items, has, false) == t
            &&& render_items(items, has, true) == t
        },
    decreases MAX_DEPTH + 1 - d, 1int, e - p,
{
    let p1 = skip_trivia_from(s, p, e);
    crate::lexer::lemma_skip_trivia_bounds(s, p, e);
    if p1 < e && s[p1] == 0x5Du8 {
        seq![]
    } else if p1 >= e || s[p1] == 0x7Du8 {
        seq![]
    } else if !is_value_start_byte(s[p1]) {
        lemma_elements_tree(s, p1 + 1, e, d, has)
    } else {
        let v = lemma_value_tree(s, p1, e, d);
        lemma_value_at_found(s, p1, e, d);
        match value_at(s, p1, e, d) {
            Err(_) => seq![],
            Ok((p2, _found, vt)) => {
                let sep: Seq<u8> = if has {
                    seq![0x2Cu8]
                } else {
                    seq![]
                };
                if p < p2 <= e {
                    let rest = lemma_elements_tree(s, p2, e, d, true);
                    lemma_render_items_cons(v, rest, has, false);
                    lemma_render_items_cons(v, rest, has, true);
                    seq![v] + rest
                } else {
                    let empty = Seq::<Json>::empty();
                    lemma_render_items_cons(v, empty, has, false);
                    lemma_render_items_cons(v, empty, has, true);
                    assert(seq![v] + empty =~= seq![v]);
                    seq![v]
                }
            },
        }
    }
}

pub proof fn lemma_render_members_cons(
    m: (Seq<u8>, Json),
    rest: Seq<(Seq<u8>, Json)>,
    has: bool,
    lower: bool,
)
    ensures
        render_members(seq![m] + rest, has, lower) == render_members(seq![m], has, lower)
            + render_members(rest, true, lower),
        render_members(seq![m], has, lower) == (if has {
            seq![0x2Cu8]
        } else {
            seq![]
        }) + seq![0x22u8] + m.0 + seq![0x22u8, 0x3Au8] + render(m.1, lower),
        json_members(seq![m] + rest) == (json_string(m.0) && json_value(m.1) && json_members(rest)),
        forall|k: int|
            members_nest_within(seq![m] + rest, k) == (nests_within(m.1, k) && members_nest_within(
                rest,
                k,
            )),
{
    let ms = seq![m] + rest;
    let single = seq![m];
    assert(ms.subrange(1, ms.len() as int) =~= rest);
    assert(single.subrange(1, single.len() as int) =~= Seq::<(Seq<u8>, Json)>::empty());
    assert(ms[0] == m && single[0] == m);
    assert(render_members(Seq::<(Seq<u8>, Json)>::empty(), true, lower) == Seq::<u8>::empty());
    let sep: Seq<u8> = if has {
        seq![0x2Cu8]
    } else {
        seq![]
    };
    let head = sep + seq![0x22u8] + m.0 + seq![0x22u8, 0x3Au8] + render(m.1, lower);
    assert(render_members(single, has, lower) =~= head);
    assert(render_members(ms, has, lower) =~= head + render_members(rest, true, lower));
}

pub proof fn lemma_render_items_cons(v: Json, rest: Seq<Json>, has: bool, lower: bool)
    ensures
        render_items(seq![v] + rest, has, lower) == render_items(seq![v], has, lower)
            + render_items(rest, true, lower),
        render_items(seq![v], has, lower) == (if has {
            seq![0x2Cu8]
        } else {
            seq![]
        }) + render(v, lower),
        json_items(seq![v] + rest) == (json_value(v) && json_items(rest)),
        forall|k: int|
            items_nest_within(seq![v] + rest, k) == (nests_within(v, k) && items_nest_within(
                rest,
                k,
            )),
{
    let items = seq![v] + rest;
    let single = seq![v];
    assert(items.subrange(1, items.len() as int) =~= rest);
    assert(single.subrange(1, single.len() as int) =~= Seq::<Json>::empty());
    assert(items[0] == v && single[0] == v);
    assert(render_items(Seq::<Json>::empty(), true, lower) == Seq::<u8>::empty());
    let sep: Seq<u8> = if has {
        seq![0x2Cu8]
    } else {
        seq![]
    };
    let head = sep + render(v, lower);
    assert(render_items(single, has, lower) =~= head);
    assert(render_items(items, has, lower) =~= head + render_items(rest, true, lower));
}

/// Whatever the input, the repaired text is the compact text of a JSON value
/// that opens at most `MAX_DEPTH` containers at once, and it writes exponents
/// with `e`.
pub proof fn lemma_repair_writes_json(input: Seq<u8>)
    ensures
        repair_text(input) matches Ok(t) ==> exists|v: Json|
            {
                &&& json_value(v)
                &&& nests_within(v, MAX_DEPTH as int)
                &&& render(v, false) == t
                &&& render(v, true) == t
            },
{
    let s = strip_bom(input);
    let e = fence_end(s);
    let p = structural_start(s, fence_start(s), e);
    crate::lexer::lemma_fence_bounds(s);
    crate::lexer::lemma_skip_trivia_bounds(s, fence_start(s), e);
    let p0 = skip_trivia_from(s, fence_start(s), e);
    if p0 < e {
        crate::lexer::lemma_scan_structural_bounds(s, p0, p0, e, None);
    }
    let v = lemma_value_tree(s, p, e, 0);
    if let Ok((_q, found, t)) = crate::parser::value_at(s, p, e, 0) {
        if found {
            assert(render(v, false) == t);
            assert(render(v, true) == t);
            assert(nests_within(v, MAX_DEPTH as int));
            assert(json_value(v));
        } else {
            let n = Json::Null;
            assert(render(n, false) == null_text());
            assert(render(n, true) == null_text());
            assert(nests_within(n, MAX_DEPTH as int));
            assert(json_value(n));
        }
    }
}


// ---------------------------------------------------------------------------
// Compact JSON reads back as itself
// ---------------------------------------------------------------------------

pub proof fn lemma_digits_end_facts(t: Seq<u8>, i: int)
    requires
        0 <= i <= t.len(),
    ensures
        i <= digits_end(t, i) <= t.len(),
        all_digits_in(t, i, digits_end(t, i)),
        digits_end(t, i) < t.len() ==> !is_digit(t[digits_end(t, i)]),
    decreases t.len() - i,
{
    if i < t.len() && is_digit(t[i]) {
        lemma_digits_end_facts(t, i + 1);
    }
}

pub proof fn lemma_find_exp_at(t: Seq<u8>, i: int, k: int)
    requires
        0 <= i <= k <= t.len(),
        forall|m: int| i <= m < k ==> !crate::parser::is_exp_marker(#[trigger] t[m]),
        k == t.len() || crate::parser::is_exp_marker(t[k]),
    ensures
        find_exp(t, i) == k,
    decreases k - i,
{
    if i < k {
        lemma_find_exp_at(t, i + 1, k);
    }
}

pub proof fn lemma_find_dot_at(t: Seq<u8>, i: int, dot: int, k: int)
    requires
        0 <= i <= dot <= k,
        forall|m: int| i <= m < dot ==> #[trigger] t[m] != 0x2Eu8,
        dot == k || t[dot] == 0x2Eu8,
    ensures
        find_dot(t, i, k) == dot,
    decreases dot - i,
{
    if i < dot {
        lemma_find_dot_at(t, i + 1, dot, k);
    }
}

/// The pieces of a JSON number: digits where the grammar puts them.
pub proof fn lemma_json_number_layout(t: Seq<u8>)
    requires
        json_number(t),
    ensures
        ({
            let n = t.len() as int;
            let b = num_sign(t);
            let i = num_int_end(t);
            let j = num_frac_end(t);
            let k = num_exp_digits(t);
            &&& 0 <= b < i <= j <= n
            &&& all_digits_in(t, b, i)
            &&& (num_has_frac(t) ==> t[i] == 0x2Eu8 && all_digits_in(t, i + 1, j) && j > i + 1)
            &&& (!num_has_frac(t) ==> j == i)
            &&& (num_has_exp(t) ==> j < k < n && all_digits_in(t, k, n) && (t[j] == 0x65u8
                || t[j] == 0x45u8) && (k == j + 2 ==> (t[j + 1] == 0x2Bu8 || t[j + 1] == 0x2Du8))
                && (k == j + 1 || k == j + 2))
            &&& (!num_has_exp(t) ==> j == n && k == n)
            &&& (j < n ==> num_has_exp(t))
            &&& (i < n && !num_has_frac(t) ==> num_has_exp(t))
            &&& (b == 1 ==> t[0] == 0x2Du8)
            &&& (b == 0 ==> n > 0 && is_digit(t[0]))
        }),
{
    let n = t.len() as int;
    let b = num_sign(t);
    lemma_digits_end_facts(t, b);
    let i = num_int_end(t);
    if num_has_frac(t) {
        lemma_digits_end_facts(t, i + 1);
    }
    let j = num_frac_end(t);
    let k = num_exp_digits(t);
    lemma_digits_end_facts(t, k);
    if j < n && !num_has_exp(t) {
        assert(digits_end(t, j) == j);
    }
}

/// A JSON number reads as a number whose sign, dot and exponent marker are
/// where the grammar puts them.
pub proof fn lemma_json_number_shape_found(t: Seq<u8>)
    requires
        json_number(t),
    ensures
        ({
            let b = num_sign(t);
            let kx = if num_has_exp(t) {
                num_frac_end(t)
            } else {
                t.len() as int
            };
            let dot = if num_has_frac(t) {
                num_int_end(t)
            } else {
                kx
            };
            &&& number_text(t) == Some(number_parts(t, b, kx, dot))
            &&& sign_len(t) == b
            &&& find_exp(t, b) == kx
            &&& find_dot(t, b, kx) == dot
        }),
{
    lemma_json_number_layout(t);
    let n = t.len() as int;
    let b = num_sign(t);
    let i = num_int_end(t);
    let j = num_frac_end(t);
    let kx = if num_has_exp(t) {
        j
    } else {
        n
    };
    let dot = if num_has_frac(t) {
        i
    } else {
        kx
    };
    assert(sign_len(t) == b);
    lemma_find_exp_at(t, b, kx);
    lemma_find_dot_at(t, b, dot, kx);
    assert forall|m: int| b <= m < kx implies is_digit(#[trigger] t[m]) || t[m] == 0x2Eu8 by {
        if m >= i {
            assert(num_has_frac(t));
            if m > i {
                assert(m < j);
            }
        }
    }
    assert(mantissa_ok(t, b, kx));
    if num_has_exp(t) {
        assert(exp_digits_start(t, kx) == num_exp_digits(t));
    }
    assert(exponent_ok(t, kx));
}

/// Writing a JSON number's pieces gives its text with `e`.
pub proof fn lemma_json_number_parts(t: Seq<u8>)
    requires
        json_number(t),
    ensures
        ({
            let b = num_sign(t);
            let kx = if num_has_exp(t) {
                num_frac_end(t)
            } else {
                t.len() as int
            };
            let dot = if num_has_frac(t) {
                num_int_end(t)
            } else {
                kx
            };
            number_parts(t, b, kx, dot) == lower_exp(t)
        }),
{
    lemma_json_number_layout(t);
    let n = t.len() as int;
    let b = num_sign(t);
    let i = num_int_end(t);
    let j = num_frac_end(t);
    let kx = if num_has_exp(t) {
        j
    } else {
        n
    };
    let dot = if num_has_frac(t) {
        i
    } else {
        kx
    };
    let lo = lower_exp(t);
    lemma_skip_zeros_bounds(t, b, dot);
    lemma_skip_zeros_stop(t, b, dot);
    let z = skip_zeros(t, b, dot);
    assert(dot == i || (dot == kx && i == kx));
    if t[b] == 0x30u8 {
        assert(skip_zeros(t, b + 1, dot) == dot);
        assert(z == dot);
        assert(int_text(t, b, dot) =~= lo.subrange(b, i));
    } else {
        assert(z == b);
        assert(int_text(t, b, dot) =~= lo.subrange(b, i));
    }
    assert(sign_text(t, b) =~= lo.subrange(0, b));
    if num_has_frac(t) {
        assert(frac_text(t, dot, kx) =~= lo.subrange(i, j));
    } else {
        assert(frac_text(t, dot, kx) =~= lo.subrange(i, j));
    }
    if num_has_exp(t) {
        assert(is_digit(t[n - 1]));
        assert(exp_text(t, kx) =~= lo.subrange(j, n));
    } else {
        assert(exp_text(t, kx) =~= lo.subrange(j, n));
    }
    assert(lo.subrange(0, b) + lo.subrange(b, i) + lo.subrange(i, j) + lo.subrange(j, n) =~= lo);
}

/// A JSON number reads as itself, with its exponent marker written `e`.
pub proof fn lemma_json_number_text(t: Seq<u8>)
    requires
        json_number(t),
    ensures
        number_text(t) == Some(lower_exp(t)),
{
    lemma_json_number_shape_found(t);
    lemma_json_number_parts(t);
}


pub proof fn lemma_text_at_split(s: Seq<u8>, p: int, a: Seq<u8>, b: Seq<u8>)
    requires
        text_at(s, p, a + b),
    ensures
        text_at(s, p, a),
        text_at(s, p + a.len(), b),
{
    assert(s.subrange(p, p + a.len()) =~= (a + b).subrange(0, a.len() as int));
    assert((a + b).subrange(0, a.len() as int) =~= a);
    assert(s.subrange(p + a.len(), p + a.len() + b.len()) =~= (a + b).subrange(
        a.len() as int,
        (a + b).len() as int,
    ));
    assert((a + b).subrange(a.len() as int, (a + b).len() as int) =~= b);
}

pub proof fn lemma_text_at_byte(s: Seq<u8>, p: int, x: Seq<u8>, i: int)
    requires
        text_at(s, p, x),
        0 <= i < x.len(),
    ensures
        s[p + i] == x[i],
{
    assert(s.subrange(p, p + x.len())[i] == s[p + i]);
}

/// A value's text may be followed by the end, whitespace, a comma or a
/// closing bracket.
pub open spec fn closes(s: Seq<u8>, q: int, e: int) -> bool {
    q == e || (q < e && (is_ws(s[q]) || s[q] == 0x2Cu8 || s[q] == 0x5Du8 || s[q] == 0x7Du8))
}

/// Bytes that may stand inside a number or a literal.
pub open spec fn is_word_byte(b: u8) -> bool {
    is_digit(b) || is_alpha(b) || b == 0x2Du8 || b == 0x2Bu8 || b == 0x2Eu8
}

pub proof fn lemma_token_end_at(s: Seq<u8>, p: int, q: int, e: int)
    requires
        0 <= p <= q <= e <= s.len(),
        forall|m: int| p <= m < q ==> is_word_byte(#[trigger] s[m]),
        closes(s, q, e),
    ensures
        token_end(s, p, e) == q,
    decreases q - p,
{
    if p < q {
        assert(is_word_byte(s[p]));
        assert(!ends_token(s, p, e));
        lemma_token_end_at(s, p + 1, q, e);
    } else if q < e {
        assert(ends_token(s, q, e));
    }
}

/// What the compact text of a JSON value starts with.
pub proof fn lemma_render_first(v: Json)
    requires
        json_value(v),
    ensures
        render(v, false).len() > 0,
        ({
            let b = render(v, false)[0];
            match v {
                Json::Null => b == 0x6Eu8,
                Json::Bool(x) => b == (if x {
                    0x74u8
                } else {
                    0x66u8
                }),
                Json::Number(_) => b == 0x2Du8 || is_digit(b),
                Json::Str(_) => b == DQUOTE,
                Json::Array(_) => b == 0x5Bu8,
                Json::Object(_) => b == 0x7Bu8,
            }
        }),
{
    match v {
        Json::Number(t) => {
            lemma_json_number_layout(t);
        },
        _ => {},
    }
}

/// Hex digits are copied by a `\u` escape.
pub proof fn lemma_unicode_digits_copy(s: Seq<u8>, q: int, e: int, k: nat)
    requires
        0 <= q,
        q + k <= e <= s.len(),
        forall|m: int| q <= m < q + k ==> is_hex(#[trigger] s[m]),
    ensures
        unicode_digits(s, q, e, k) == (q + k, s.subrange(q, q + k)),
    decreases k,
{
    if k > 0 {
        assert(is_hex(s[q]));
        lemma_unicode_digits_copy(s, q + 1, e, (k - 1) as nat);
        assert(seq![s[q]] + s.subrange(q + 1, q + k) =~= s.subrange(q, q + k));
    }
}

/// The contents of a JSON string, from its unit at `i`, read back as
/// themselves up to the closing quote.
pub proof fn lemma_string_reads(s: Seq<u8>, q0: int, e: int, c: Seq<u8>, i: int)
    requires
        text_at(s, q0, c),
        q0 + c.len() < e <= s.len(),
        s[q0 + c.len()] == DQUOTE,
        0 <= i <= c.len(),
        string_units(c, i),
    ensures
        string_body(s, q0 + i, e, DQUOTE) == (q0 + c.len() + 1, c.subrange(i, c.len() as int)
            + seq![DQUOTE]),
    decreases c.len() - i,
{
    let q = q0 + i;
    if i == c.len() {
        assert(c.subrange(i, c.len() as int) + seq![DQUOTE] =~= seq![DQUOTE]);
    } else {
        lemma_text_at_byte(s, q0, c, i);
        if c[i] == BACKSLASH {
            lemma_text_at_byte(s, q0, c, i + 1);
            let x = c[i + 1];
            if x == 0x22u8 || x == 0x5Cu8 || x == 0x2Fu8 || x == 0x62u8 || x == 0x66u8 || x
                == 0x6Eu8 || x == 0x72u8 || x == 0x74u8 {
                assert(escape_at(s, q + 1, e) == (q + 2, seq![BACKSLASH, x]));
                lemma_string_reads(s, q0, e, c, i + 2);
                assert(seq![BACKSLASH, x] + (c.subrange(i + 2, c.len() as int) + seq![DQUOTE])
                    =~= c.subrange(i, c.len() as int) + seq![DQUOTE]);
            } else {
                assert(c[i + 1] == 0x75u8);
                assert forall|m: int| q + 2 <= m < q + 6 implies is_hex(#[trigger] s[m]) by {
                    lemma_text_at_byte(s, q0, c, m - q0);
                }
                lemma_unicode_digits_copy(s, q + 2, e, 4);
                assert(s.subrange(q + 2, q + 6) =~= c.subrange(i + 2, i + 6)) by {
                    assert forall|m: int| 0 <= m < 4 implies #[trigger] s.subrange(q + 2, q + 6)[m] == c.subrange(
                        i + 2,
                        i + 6,
                    )[m] by {
                        lemma_text_at_byte(s, q0, c, i + 2 + m);
                    }
                }
                lemma_string_reads(s, q0, e, c, i + 6);
                assert(seq![BACKSLASH, 0x75u8] + c.subrange(i + 2, i + 6) + (c.subrange(
                    i + 6,
                    c.len() as int,
                ) + seq![DQUOTE]) =~= c.subrange(i, c.len() as int) + seq![DQUOTE]);
            }
        } else {
            let b = c[i];
            assert(escape_byte(b) == seq![b]);
            lemma_string_reads(s, q0, e, c, i + 1);
            assert(seq![b] + (c.subrange(i + 1, c.len() as int) + seq![DQUOTE]) =~= c.subrange(
                i,
                c.len() as int,
            ) + seq![DQUOTE]);
        }
    }
}

} // verus!
