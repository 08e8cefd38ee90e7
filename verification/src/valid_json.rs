//! Valid JSON is kept: a JSON document within the nesting limit is repaired
//! into the compact text of the same value, and one nested deeper is
//! refused; text after an object or array is ignored; and repairing
//! repaired text changes nothing.
use vstd::prelude::*;
use crate::lexer::{
    is_ws, is_digit, is_hex, skip_trivia_from, skip_ws, trim_ws_back, scan_structural,
    structural_start, strip_bom, has_bom, fence_start, fence_end, is_fence_at, token_end,
    ends_token,
    BACKSLASH,
    BACKTICK, DQUOTE, SLASH,
};
use crate::json::{
    Json, render, render_items, render_members, json_value, json_items, json_members,
    json_string, string_units, json_number, nests_within, items_nest_within, members_nest_within,
    text_at, is_json_ws, ws_end, value_span, gap_span, items_span, members_span, json_document,
};
use crate::json_laws::{
    closes, is_word_byte, lemma_token_end_at, lemma_text_at_split, lemma_text_at_byte,
    lemma_string_reads, lemma_render_first, lemma_json_number_layout, lemma_json_number_text,
    lemma_repair_writes_json,
};
use crate::parser::{
    value_at, members, member_at, elements, key_at, value_search, string_at, null_text, true_text, false_text, is_value_start_byte,
    can_start_key_byte, repair_text, glued_quote, RepairError, DepthLimitExceeded, MAX_DEPTH,
};

verus! {

// ---------------------------------------------------------------------------
// Whitespace and the cursor
// ---------------------------------------------------------------------------

pub proof fn lemma_ws_end_bounds(s: Seq<u8>, p: int)
    requires
        0 <= p,
    ensures
        p <= ws_end(s, p),
        p <= s.len() ==> ws_end(s, p) <= s.len(),
        forall|m: int| p <= m < ws_end(s, p) ==> is_json_ws(#[trigger] s[m]),
        ws_end(s, p) < s.len() ==> !is_json_ws(s[ws_end(s, p)]),
    decreases s.len() - p,
{
    if p < s.len() && is_json_ws(s[p]) {
        lemma_ws_end_bounds(s, p + 1);
    }
}

/// A run of JSON whitespace is trivia: the cursor skips it.
pub proof fn lemma_skip_ws_end(s: Seq<u8>, p: int, e: int)
    requires
        0 <= p,
        ws_end(s, p) <= e,
    ensures
        skip_trivia_from(s, p, e) == skip_trivia_from(s, ws_end(s, p), e),
    decreases s.len() - p,
{
    if p < s.len() && is_json_ws(s[p]) {
        lemma_ws_end_bounds(s, p + 1);
        lemma_skip_ws_end(s, p + 1, e);
    }
}

/// The cursor stays on a byte that is neither whitespace nor a slash.
pub proof fn lemma_trivia_stops(s: Seq<u8>, a: int, e: int)
    requires
        0 <= a <= e <= s.len(),
        a < e ==> !is_ws(s[a]) && s[a] != SLASH,
    ensures
        skip_trivia_from(s, a, e) == a,
{
}

/// `skip_ws` stops where a run of JSON whitespace ends.
pub proof fn lemma_skip_ws_json(s: Seq<u8>, p: int, e: int)
    requires
        0 <= p,
        ws_end(s, p) <= e <= s.len(),
        ws_end(s, p) < e ==> !is_ws(s[ws_end(s, p)]),
    ensures
        skip_ws(s, p, e) == ws_end(s, p),
    decreases s.len() - p,
{
    if p < s.len() && is_json_ws(s[p]) {
        lemma_ws_end_bounds(s, p + 1);
        lemma_skip_ws_json(s, p + 1, e);
    }
}

/// `trim_ws_back` stops where a run of trailing JSON whitespace starts.
pub proof fn lemma_trim_ws_run(s: Seq<u8>, st: int, b: int, e: int)
    requires
        st < b <= e <= s.len(),
        forall|m: int| b <= m < e ==> is_json_ws(#[trigger] s[m]),
        !is_ws(s[b - 1]),
    ensures
        trim_ws_back(s, st, e) == b,
    decreases e - b,
{
    if e > b {
        assert(is_json_ws(s[e - 1]));
        lemma_trim_ws_run(s, st, b, e - 1);
    }
}

// ---------------------------------------------------------------------------
// Shape of a JSON text
// ---------------------------------------------------------------------------

/// A JSON number is made of word bytes and ends with a digit.
pub proof fn lemma_number_bytes(t: Seq<u8>)
    requires
        json_number(t),
    ensures
        t.len() > 0,
        is_digit(t[t.len() - 1]),
        forall|m: int| 0 <= m < t.len() ==> is_word_byte(#[trigger] t[m]),
{
    lemma_json_number_layout(t);
    let n = t.len() as int;
    let b = crate::json::num_sign(t);
    let i = crate::json::num_int_end(t);
    let j = crate::json::num_frac_end(t);
    let k = crate::json::num_exp_digits(t);
    assert forall|m: int| 0 <= m < n implies is_word_byte(#[trigger] t[m]) by {
        if m < b {
        } else if m < i {
            assert(is_digit(t[m]));
        } else if m < j {
            if m > i {
                assert(is_digit(t[m]));
            }
        } else if m < k {
        } else {
            assert(is_digit(t[m]));
        }
    }
    assert(is_digit(t[n - 1]));
}

/// The bytes of a number or a literal are word bytes.
pub proof fn lemma_scalar_word_bytes(s: Seq<u8>, p: int, v: Json)
    requires
        json_value(v),
        v is Number || v is Null || v is Bool,
        text_at(s, p, render(v, false)),
    ensures
        forall|m: int| p <= m < p + render(v, false).len() ==> is_word_byte(#[trigger] s[m]),
{
    let r = render(v, false);
    if let Json::Number(t) = v {
        lemma_number_bytes(t);
    }
    assert forall|m: int| p <= m < p + r.len() implies is_word_byte(#[trigger] s[m]) by {
        lemma_text_at_byte(s, p, r, m - p);
    }
}

/// Where a JSON text starts and ends, and what its first and last bytes are.
pub proof fn lemma_value_span_ends(s: Seq<u8>, p: int, v: Json)
    requires
        value_span(s, p, v) is Some,
        json_value(v),
    ensures
        ({
            let q = value_span(s, p, v).unwrap();
            &&& 0 <= p < q <= s.len()
            &&& is_value_start_byte(s[p])
            &&& !is_ws(s[p]) && !is_json_ws(s[p]) && s[p] != SLASH && s[p] != BACKTICK
            &&& s[p] != 0xEFu8 && s[p] != 0x2Cu8 && s[p] != 0x5Du8 && s[p] != 0x7Du8
            &&& !is_ws(s[q - 1]) && s[q - 1] != BACKTICK
        }),
    decreases v,
{
    match v {
        Json::Array(items) => {
            lemma_items_span_bounds(s, p + 1, items, false);
        },
        Json::Object(ms) => {
            lemma_members_span_bounds(s, p + 1, ms, false);
        },
        _ => {
            let r = render(v, false);
            lemma_render_first(v);
            lemma_text_at_byte(s, p, r, 0);
            lemma_text_at_byte(s, p, r, r.len() - 1);
            if let Json::Number(t) = v {
                lemma_number_bytes(t);
            }
        },
    }
}

pub proof fn lemma_items_span_bounds(s: Seq<u8>, p: int, items: Seq<Json>, has: bool)
    requires
        0 <= p,
        items_span(s, p, items, has) is Some,
        json_items(items),
    ensures
        p <= items_span(s, p, items, has).unwrap(),
    decreases items,
{
    lemma_ws_end_bounds(s, p);
    if items.len() > 0 {
        let a = gap_span(s, p, has).unwrap();
        if has {
            lemma_ws_end_bounds(s, ws_end(s, p) + 1);
        }
        lemma_value_span_ends(s, a, items[0]);
        let b = value_span(s, a, items[0]).unwrap();
        lemma_items_span_bounds(s, b, items.subrange(1, items.len() as int), true);
    }
}

pub proof fn lemma_members_span_bounds(
    s: Seq<u8>,
    p: int,
    ms: Seq<(Seq<u8>, Json)>,
    has: bool,
)
    requires
        0 <= p,
        members_span(s, p, ms, has) is Some,
        json_members(ms),
    ensures
        p <= members_span(s, p, ms, has).unwrap(),
    decreases ms,
{
    lemma_ws_end_bounds(s, p);
    if ms.len() > 0 {
        let a = gap_span(s, p, has).unwrap();
        if has {
            lemma_ws_end_bounds(s, ws_end(s, p) + 1);
        }
        let key = seq![0x22u8] + ms[0].0 + seq![0x22u8];
        let c = ws_end(s, a + key.len());
        lemma_ws_end_bounds(s, a + key.len());
        lemma_ws_end_bounds(s, c + 1);
        let b0 = ws_end(s, c + 1);
        lemma_value_span_ends(s, b0, ms[0].1);
        let b = value_span(s, b0, ms[0].1).unwrap();
        lemma_members_span_bounds(s, b, ms.subrange(1, ms.len() as int), true);
    }
}

/// What follows a value inside a container ends its token.
pub proof fn lemma_gap_closes(s: Seq<u8>, b: int, r: int, e: int, closer: u8)
    requires
        0 <= b <= r < e <= s.len(),
        r == ws_end(s, b) || (ws_end(s, b) < s.len() && s[ws_end(s, b)] == 0x2Cu8),
        s[r] == closer,
        closer == 0x5Du8 || closer == 0x7Du8,
    ensures
        closes(s, b, e),
{
    lemma_ws_end_bounds(s, b);
    if ws_end(s, b) > b {
        assert(is_json_ws(s[b]));
    }
}

pub proof fn lemma_items_next_closes(s: Seq<u8>, b: int, r: int, e: int, items: Seq<Json>)
    requires
        0 <= b,
        items_span(s, b, items, true) == Some(r),
        r < e <= s.len(),
        s[r] == 0x5Du8,
        json_items(items),
    ensures
        closes(s, b, e),
{
    lemma_items_span_bounds(s, b, items, true);
    lemma_gap_closes(s, b, r, e, 0x5Du8);
}

pub proof fn lemma_members_next_closes(
    s: Seq<u8>,
    b: int,
    r: int,
    e: int,
    ms: Seq<(Seq<u8>, Json)>,
)
    requires
        0 <= b,
        members_span(s, b, ms, true) == Some(r),
        r < e <= s.len(),
        s[r] == 0x7Du8,
        json_members(ms),
    ensures
        closes(s, b, e),
{
    lemma_members_span_bounds(s, b, ms, true);
    lemma_gap_closes(s, b, r, e, 0x7Du8);
}

// ---------------------------------------------------------------------------
// A JSON text reads back as its value
// ---------------------------------------------------------------------------

/// The value whose text starts after whitespace at `p0` is read as the
/// compact text of that value, at any nesting that leaves it room.
pub proof fn lemma_value_reads(s: Seq<u8>, p0: int, q: int, e: int, d: int, v: Json)
    requires
        0 <= d <= MAX_DEPTH,
        json_value(v),
        nests_within(v, MAX_DEPTH - d),
        0 <= p0,
        value_span(s, ws_end(s, p0), v) == Some(q),
        q <= e <= s.len(),
        v is Number || v is Null || v is Bool ==> closes(s, q, e),
    ensures
        value_at(s, p0, e, d) == Ok::<(int, bool, Seq<u8>), RepairError>((q, true, render(v, true))),
    decreases v,
{
    let p = ws_end(s, p0);
    lemma_ws_end_bounds(s, p0);
    lemma_value_span_ends(s, p, v);
    lemma_skip_ws_end(s, p0, e);
    lemma_trivia_stops(s, p, e);
    assert(value_search(s, p0, e) == p);
    match v {
        Json::Array(items) => {
            let r = (q - 1) as int;
            lemma_items_reads(s, p + 1, r, e, d + 1, items, false);
            assert(render(v, true) =~= seq![0x5Bu8] + render_items(items, false, true) + seq![
                0x5Du8,
            ]);
        },
        Json::Object(ms) => {
            let r = (q - 1) as int;
            lemma_members_reads(s, p + 1, r, e, d + 1, ms, false);
        },
        Json::Str(c) => {
            let t = seq![DQUOTE] + c + seq![DQUOTE];
            lemma_text_at_split(s, p, seq![DQUOTE] + c, seq![DQUOTE]);
            lemma_text_at_split(s, p, seq![DQUOTE], c);
            lemma_text_at_byte(s, p, t, c.len() + 1int);
            lemma_string_reads(s, p + 1, e, c, 0);
            assert(c.subrange(0, c.len() as int) =~= c);
            assert(string_at(s, p, e).1 =~= t);
        },
        Json::Number(t) => {
            lemma_scalar_word_bytes(s, p, v);
            lemma_token_end_at(s, p, q, e);
            lemma_json_number_text(t);
            assert(s.subrange(p, q) == t);
        },
        Json::Null => {
            lemma_scalar_word_bytes(s, p, v);
            lemma_token_end_at(s, p, q, e);
            assert(s.subrange(p, q) == null_text());
            assert(null_text()[0] != true_text()[0]);
            assert(null_text().len() != false_text().len());
        },
        Json::Bool(x) => {
            lemma_scalar_word_bytes(s, p, v);
            lemma_token_end_at(s, p, q, e);
            if x {
                assert(s.subrange(p, q) == true_text());
            } else {
                assert(s.subrange(p, q) == false_text());
                assert(false_text().len() != true_text().len());
            }
        },
    }
}

/// Array items from `p` up to the `]` at `r` are read as their compact text.
#[verifier::spinoff_prover]
pub proof fn lemma_items_reads(
    s: Seq<u8>,
    p: int,
    r: int,
    e: int,
    d: int,
    items: Seq<Json>,
    has: bool,
)
    requires
        1 <= d <= MAX_DEPTH,
        json_items(items),
        items_nest_within(items, MAX_DEPTH - d),
        0 <= p,
        items_span(s, p, items, has) == Some(r),
        r < e <= s.len(),
        s[r] == 0x5Du8,
    ensures
        elements(s, p, e, d, has) == Ok::<(int, Seq<u8>), RepairError>(
            (r + 1, render_items(items, has, true)),
        ),
    decreases items,
{
    lemma_ws_end_bounds(s, p);
    lemma_items_span_bounds(s, p, items, has);
    let a0 = ws_end(s, p);
    lemma_skip_ws_end(s, p, e);
    if items.len() == 0 {
        lemma_trivia_stops(s, r, e);
    } else {
        let a = gap_span(s, p, has).unwrap();
        let b = value_span(s, a, items[0]).unwrap();
        let tail = items.subrange(1, items.len() as int);
        lemma_value_span_ends(s, a, items[0]);
        lemma_items_span_bounds(s, b, tail, true);
        lemma_items_next_closes(s, b, r, e, tail);
        lemma_ws_end_bounds(s, a);
        lemma_value_reads(s, a, b, e, d, items[0]);
        lemma_items_reads(s, b, r, e, d, tail, true);
        lemma_trivia_stops(s, a, e);
        if has {
            lemma_ws_end_bounds(s, a0 + 1);
            lemma_trivia_stops(s, a0, e);
            lemma_skip_ws_end(s, a0 + 1, e);
            assert(elements(s, p, e, d, has) == elements(s, a0 + 1, e, d, has));
        }
    }
}

/// One member whose key is a JSON string at `a`, followed by whitespace, a
/// colon and a value that reads as `w`.
pub proof fn lemma_member_reads(
    s: Seq<u8>,
    a: int,
    e: int,
    d: int,
    has: bool,
    k: Seq<u8>,
    b: int,
    w: Seq<u8>,
)
    requires
        json_string(k),
        text_at(s, a, seq![DQUOTE] + k + seq![DQUOTE]),
        ({
            let c = ws_end(s, a + k.len() + 2);
            &&& c < e <= s.len()
            &&& s[c] == 0x3Au8
            &&& value_at(s, c + 1, e, d) == Ok::<(int, bool, Seq<u8>), RepairError>((b, true, w))
        }),
        0 <= b,
        closes(s, b, e),
    ensures
        ({
            let sep = if has {
                seq![0x2Cu8]
            } else {
                seq![]
            };
            member_at(s, a, e, d, has) == Ok::<(int, Seq<u8>), RepairError>(
                (b, sep + (seq![DQUOTE] + k + seq![DQUOTE]) + seq![0x3Au8] + w),
            )
        }),
{
    let key = seq![DQUOTE] + k + seq![DQUOTE];
    let kend = a + key.len();
    let c = ws_end(s, kend);
    lemma_ws_end_bounds(s, kend);
    lemma_text_at_split(s, a, seq![DQUOTE] + k, seq![DQUOTE]);
    lemma_text_at_split(s, a, seq![DQUOTE], k);
    lemma_text_at_byte(s, a, key, 0);
    lemma_text_at_byte(s, a, key, k.len() + 1int);
    lemma_string_reads(s, a + 1, e, k, 0);
    assert(k.subrange(0, k.len() as int) =~= k);
    assert(key_at(s, a, e) == (kend, key));
    lemma_skip_ws_end(s, kend, e);
    lemma_trivia_stops(s, c, e);
    // Nothing is glued to the value.
    if b < e {
        assert(ends_token(s, b, e));
    }
    assert(token_end(s, b, e) == b);
    assert(!glued_quote(s, value_search(s, c + 1, e), b, e));
}

/// A byte that cannot start a key is skipped.
pub proof fn lemma_members_skip(s: Seq<u8>, p: int, a: int, e: int, d: int, has: bool)
    requires
        skip_trivia_from(s, p, e) == a,
        p <= a < e,
        !can_start_key_byte(s[a]),
        s[a] != 0x5Du8 && s[a] != 0x7Du8,
    ensures
        members(s, p, e, d, has) == members(s, a + 1, e, d, has),
{
}

/// A member at `a` is written, and the members after it follow.
pub proof fn lemma_members_step(
    s: Seq<u8>,
    p: int,
    a: int,
    b: int,
    e: int,
    d: int,
    has: bool,
    entry: Seq<u8>,
)
    requires
        skip_trivia_from(s, p, e) == a,
        p <= a < b <= e,
        can_start_key_byte(s[a]),
        s[a] != 0x5Du8 && s[a] != 0x7Du8,
        member_at(s, a, e, d, has) == Ok::<(int, Seq<u8>), RepairError>((b, entry)),
    ensures
        members(s, p, e, d, has) == crate::parser::prefixed(entry, members(s, b, e, d, true)),
{
}

/// The first member's compact text, then the others'.
pub proof fn lemma_render_members_head(ms: Seq<(Seq<u8>, Json)>, has: bool)
    requires
        ms.len() > 0,
    ensures
        render_members(ms, has, true) == (if has {
            seq![0x2Cu8]
        } else {
            seq![]
        }) + (seq![DQUOTE] + ms[0].0 + seq![DQUOTE]) + seq![0x3Au8] + render(ms[0].1, true)
            + render_members(ms.subrange(1, ms.len() as int), true, true),
{
    let sep = if has {
        seq![0x2Cu8]
    } else {
        seq![]
    };
    assert(render_members(ms, has, true) =~= sep + (seq![DQUOTE] + ms[0].0 + seq![DQUOTE])
        + seq![0x3Au8] + render(ms[0].1, true) + render_members(
        ms.subrange(1, ms.len() as int),
        true,
        true,
    ));
}

/// Object members from `p` up to the `}` at `r` are read as their compact
/// text.
#[verifier::spinoff_prover]
pub proof fn lemma_members_reads(
    s: Seq<u8>,
    p: int,
    r: int,
    e: int,
    d: int,
    ms: Seq<(Seq<u8>, Json)>,
    has: bool,
)
    requires
        1 <= d <= MAX_DEPTH,
        json_members(ms),
        members_nest_within(ms, MAX_DEPTH - d),
        0 <= p,
        members_span(s, p, ms, has) == Some(r),
        r < e <= s.len(),
        s[r] == 0x7Du8,
    ensures
        members(s, p, e, d, has) == Ok::<(int, Seq<u8>), RepairError>(
            (r + 1, render_members(ms, has, true)),
        ),
    decreases ms,
{
    lemma_ws_end_bounds(s, p);
    lemma_members_span_bounds(s, p, ms, has);
    let a0 = ws_end(s, p);
    lemma_skip_ws_end(s, p, e);
    if ms.len() == 0 {
        lemma_trivia_stops(s, r, e);
    } else {
        let a = gap_span(s, p, has).unwrap();
        let k = ms[0].0;
        let key = seq![DQUOTE] + k + seq![DQUOTE];
        let kend = a + key.len();
        let c = ws_end(s, kend);
        let b0 = ws_end(s, c + 1);
        let b = value_span(s, b0, ms[0].1).unwrap();
        let tail = ms.subrange(1, ms.len() as int);
        if has {
            lemma_ws_end_bounds(s, a0 + 1);
        }
        lemma_ws_end_bounds(s, kend);
        lemma_ws_end_bounds(s, c + 1);
        lemma_value_span_ends(s, b0, ms[0].1);
        lemma_members_span_bounds(s, b, tail, true);
        lemma_members_next_closes(s, b, r, e, tail);
        lemma_value_reads(s, c + 1, b, e, d, ms[0].1);
        lemma_members_reads(s, b, r, e, d, tail, true);
        lemma_member_reads(s, a, e, d, has, k, b, render(ms[0].1, true));
        lemma_text_at_byte(s, a, key, 0);
        lemma_trivia_stops(s, a, e);
        let sep = if has {
            seq![0x2Cu8]
        } else {
            seq![]
        };
        let entry = sep + key + seq![0x3Au8] + render(ms[0].1, true);
        if has {
            lemma_trivia_stops(s, a0, e);
            lemma_skip_ws_end(s, a0 + 1, e);
            lemma_members_skip(s, p, a0, e, d, has);
            lemma_members_step(s, a0 + 1, a, b, e, d, has, entry);
        } else {
            lemma_members_step(s, p, a, b, e, d, has, entry);
        }
        lemma_render_members_head(ms, has);
    }
}

// ---------------------------------------------------------------------------
// A JSON text that nests too deep is refused
// ---------------------------------------------------------------------------

/// A value whose text starts after whitespace at `p0` and that opens more
/// than `MAX_DEPTH - d` containers at once is refused.
pub proof fn lemma_value_refused(s: Seq<u8>, p0: int, q: int, e: int, d: int, v: Json)
    requires
        0 <= d <= MAX_DEPTH,
        json_value(v),
        !nests_within(v, MAX_DEPTH - d),
        0 <= p0,
        value_span(s, ws_end(s, p0), v) == Some(q),
        q <= e <= s.len(),
    ensures
        value_at(s, p0, e, d) == Err::<(int, bool, Seq<u8>), RepairError>(
            RepairError::Depth(DepthLimitExceeded),
        ),
    decreases v,
{
    let p = ws_end(s, p0);
    lemma_ws_end_bounds(s, p0);
    lemma_value_span_ends(s, p, v);
    lemma_skip_ws_end(s, p0, e);
    lemma_trivia_stops(s, p, e);
    assert(value_search(s, p0, e) == p);
    if d < MAX_DEPTH {
        match v {
            Json::Array(items) => {
                lemma_items_refused(s, p + 1, q - 1, e, d + 1, items, false);
            },
            Json::Object(ms) => {
                lemma_members_refused(s, p + 1, q - 1, e, d + 1, ms, false);
            },
            _ => {},
        }
    }
}

pub proof fn lemma_items_refused(
    s: Seq<u8>,
    p: int,
    r: int,
    e: int,
    d: int,
    items: Seq<Json>,
    has: bool,
)
    requires
        1 <= d <= MAX_DEPTH,
        json_items(items),
        !items_nest_within(items, MAX_DEPTH - d),
        0 <= p,
        items_span(s, p, items, has) == Some(r),
        r < e <= s.len(),
        s[r] == 0x5Du8,
    ensures
        elements(s, p, e, d, has) == Err::<(int, Seq<u8>), RepairError>(
            RepairError::Depth(DepthLimitExceeded),
        ),
    decreases items,
{
    lemma_ws_end_bounds(s, p);
    let a0 = ws_end(s, p);
    let a = gap_span(s, p, has).unwrap();
    if has {
        lemma_ws_end_bounds(s, a0 + 1);
    }
    let b = value_span(s, a, items[0]).unwrap();
    let tail = items.subrange(1, items.len() as int);
    lemma_value_span_ends(s, a, items[0]);
    lemma_items_span_bounds(s, b, tail, true);
    lemma_skip_ws_end(s, p, e);
    lemma_ws_end_bounds(s, a);
    lemma_trivia_stops(s, a, e);
    if nests_within(items[0], MAX_DEPTH - d) {
        lemma_items_next_closes(s, b, r, e, tail);
        lemma_value_reads(s, a, b, e, d, items[0]);
        lemma_items_refused(s, b, r, e, d, tail, true);
    } else {
        lemma_value_refused(s, a, b, e, d, items[0]);
    }
    if has {
        lemma_ws_end_bounds(s, a0 + 1);
        lemma_trivia_stops(s, a0, e);
        lemma_skip_ws_end(s, a0 + 1, e);
        assert(elements(s, p, e, d, has) == elements(s, a0 + 1, e, d, has));
    }
}

pub proof fn lemma_members_refused(
    s: Seq<u8>,
    p: int,
    r: int,
    e: int,
    d: int,
    ms: Seq<(Seq<u8>, Json)>,
    has: bool,
)
    requires
        1 <= d <= MAX_DEPTH,
        json_members(ms),
        !members_nest_within(ms, MAX_DEPTH - d),
        0 <= p,
        members_span(s, p, ms, has) == Some(r),
        r < e <= s.len(),
        s[r] == 0x7Du8,
    ensures
        members(s, p, e, d, has) == Err::<(int, Seq<u8>), RepairError>(
            RepairError::Depth(DepthLimitExceeded),
        ),
    decreases ms,
{
    lemma_ws_end_bounds(s, p);
    let a0 = ws_end(s, p);
    let a = gap_span(s, p, has).unwrap();
    let k = ms[0].0;
    let key = seq![DQUOTE] + k + seq![DQUOTE];
    let kend = a + key.len();
    let c = ws_end(s, kend);
    let b0 = ws_end(s, c + 1);
    let b = value_span(s, b0, ms[0].1).unwrap();
    let tail = ms.subrange(1, ms.len() as int);
    if has {
        lemma_ws_end_bounds(s, a0 + 1);
    }
    lemma_ws_end_bounds(s, kend);
    lemma_ws_end_bounds(s, c + 1);
    lemma_value_span_ends(s, b0, ms[0].1);
    lemma_members_span_bounds(s, b, tail, true);
    lemma_skip_ws_end(s, p, e);
    lemma_text_at_byte(s, a, key, 0);
    lemma_trivia_stops(s, a, e);
    if has {
        lemma_trivia_stops(s, a0, e);
        lemma_skip_ws_end(s, a0 + 1, e);
        lemma_members_skip(s, p, a0, e, d, has);
    }
    let p1 = if has {
        a0 + 1
    } else {
        p
    };
    if nests_within(ms[0].1, MAX_DEPTH - d) {
        lemma_members_next_closes(s, b, r, e, tail);
        lemma_value_reads(s, c + 1, b, e, d, ms[0].1);
        lemma_member_reads(s, a, e, d, has, k, b, render(ms[0].1, true));
        lemma_members_refused(s, b, r, e, d, tail, true);
        let sep = if has {
            seq![0x2Cu8]
        } else {
            seq![]
        };
        let entry = sep + key + seq![0x3Au8] + render(ms[0].1, true);
        lemma_members_step(s, p1, a, b, e, d, has, entry);
    } else {
        lemma_value_refused(s, c + 1, b, e, d, ms[0].1);
        lemma_member_refused(s, a, e, d, has, k);
        lemma_members_none(s, p1, a, e, d, has);
    }
}

/// A member whose value is refused is refused.
pub proof fn lemma_member_refused(s: Seq<u8>, a: int, e: int, d: int, has: bool, k: Seq<u8>)
    requires
        json_string(k),
        text_at(s, a, seq![DQUOTE] + k + seq![DQUOTE]),
        ({
            let c = ws_end(s, a + k.len() + 2);
            &&& c < e <= s.len()
            &&& s[c] == 0x3Au8
            &&& value_at(s, c + 1, e, d) == Err::<(int, bool, Seq<u8>), RepairError>(
                RepairError::Depth(DepthLimitExceeded),
            )
        }),
    ensures
        member_at(s, a, e, d, has) == Err::<(int, Seq<u8>), RepairError>(
            RepairError::Depth(DepthLimitExceeded),
        ),
{
    let key = seq![DQUOTE] + k + seq![DQUOTE];
    let kend = a + key.len();
    let c = ws_end(s, kend);
    lemma_ws_end_bounds(s, kend);
    lemma_text_at_split(s, a, seq![DQUOTE] + k, seq![DQUOTE]);
    lemma_text_at_split(s, a, seq![DQUOTE], k);
    lemma_text_at_byte(s, a, key, 0);
    lemma_text_at_byte(s, a, key, k.len() + 1int);
    lemma_string_reads(s, a + 1, e, k, 0);
    assert(k.subrange(0, k.len() as int) =~= k);
    assert(key_at(s, a, e) == (kend, key));
    lemma_skip_ws_end(s, kend, e);
    lemma_trivia_stops(s, c, e);
}

/// A refused member refuses the object.
pub proof fn lemma_members_none(s: Seq<u8>, p: int, a: int, e: int, d: int, has: bool)
    requires
        skip_trivia_from(s, p, e) == a,
        p <= a < e,
        can_start_key_byte(s[a]),
        s[a] != 0x5Du8 && s[a] != 0x7Du8,
        member_at(s, a, e, d, has) == Err::<(int, Seq<u8>), RepairError>(
            RepairError::Depth(DepthLimitExceeded),
        ),
    ensures
        members(s, p, e, d, has) == Err::<(int, Seq<u8>), RepairError>(
            RepairError::Depth(DepthLimitExceeded),
        ),
{
}

// ---------------------------------------------------------------------------
// Locating a JSON document
// ---------------------------------------------------------------------------

/// Inside a quote, bytes that neither escape nor close it are passed over.
pub proof fn lemma_scan_quoted_plain(s: Seq<u8>, st: int, a: int, b: int, e: int)
    requires
        0 <= a <= b < e <= s.len(),
        forall|m: int| a <= m < b ==> #[trigger] s[m] != BACKSLASH && s[m] != DQUOTE,
    ensures
        scan_structural(s, st, a, e, Some(DQUOTE)) == scan_structural(s, st, b, e, Some(DQUOTE)),
    decreases b - a,
{
    if a < b {
        assert(s[a] != BACKSLASH && s[a] != DQUOTE);
        lemma_scan_quoted_plain(s, st, a + 1, b, e);
    }
}

/// The scan passes over the contents of a JSON string and its closing quote.
pub proof fn lemma_scan_string(s: Seq<u8>, st: int, q0: int, e: int, c: Seq<u8>, i: int)
    requires
        text_at(s, q0, c),
        q0 + c.len() < e <= s.len(),
        s[q0 + c.len()] == DQUOTE,
        0 <= i <= c.len(),
        string_units(c, i),
    ensures
        scan_structural(s, st, q0 + i, e, Some(DQUOTE)) == scan_structural(
            s,
            st,
            q0 + c.len() + 1,
            e,
            None,
        ),
    decreases c.len() - i,
{
    let x = q0 + i;
    if i < c.len() {
        lemma_text_at_byte(s, q0, c, i);
        if c[i] == BACKSLASH {
            lemma_text_at_byte(s, q0, c, i + 1);
            let y = c[i + 1];
            if y == 0x22u8 || y == 0x5Cu8 || y == 0x2Fu8 || y == 0x62u8 || y == 0x66u8 || y
                == 0x6Eu8 || y == 0x72u8 || y == 0x74u8 {
                lemma_scan_string(s, st, q0, e, c, i + 2);
            } else {
                assert forall|m: int| x + 2 <= m < x + 6 implies #[trigger] s[m] != BACKSLASH
                    && s[m] != DQUOTE by {
                    lemma_text_at_byte(s, q0, c, m - q0);
                    assert(is_hex(c[m - q0]));
                }
                lemma_scan_quoted_plain(s, st, x + 2, x + 6, e);
                lemma_scan_string(s, st, q0, e, c, i + 6);
            }
        } else {
            lemma_scan_string(s, st, q0, e, c, i + 1);
        }
    }
}

/// Outside quotes, the scan passes over word bytes.
pub proof fn lemma_scan_words(s: Seq<u8>, st: int, a: int, b: int, e: int)
    requires
        0 <= a <= b <= e <= s.len(),
        forall|m: int| a <= m < b ==> is_word_byte(#[trigger] s[m]),
    ensures
        scan_structural(s, st, a, e, None) == scan_structural(s, st, b, e, None),
    decreases b - a,
{
    if a < b {
        assert(is_word_byte(s[a]));
        lemma_scan_words(s, st, a + 1, b, e);
    }
}

/// A JSON document is found where its value's text starts: no byte-order
/// mark, no fence, and no preamble stand before it.
pub proof fn lemma_document_located(s: Seq<u8>, v: Json)
    requires
        json_document(s, v),
        json_value(v),
    ensures
        ({
            let a = ws_end(s, 0);
            let b = value_span(s, a, v).unwrap();
            &&& strip_bom(s) == s
            &&& fence_end(s) == b
            &&& structural_start(s, fence_start(s), b) == a
            &&& ws_end(s, a) == a
            &&& 0 <= a < b <= s.len()
        }),
{
    let n = s.len() as int;
    let a = ws_end(s, 0);
    let b = value_span(s, a, v).unwrap();
    lemma_ws_end_bounds(s, 0);
    lemma_value_span_ends(s, a, v);
    lemma_ws_end_bounds(s, b);
    // No byte-order mark.
    if a > 0 {
        assert(is_json_ws(s[0]));
    }
    assert(!has_bom(s));
    assert(strip_bom(s) == s);
    // No fences: the payload is the value's text.
    lemma_skip_ws_json(s, 0, n);
    assert(fence_start(s) == a);
    lemma_trim_ws_run(s, a, b, n);
    assert(fence_end(s) == b);
    // The value starts the payload.
    lemma_trivia_stops(s, a, b);
    match v {
        Json::Array(_) => {},
        Json::Object(_) => {},
        Json::Str(c) => {
            let t = seq![DQUOTE] + c + seq![DQUOTE];
            lemma_text_at_split(s, a, seq![DQUOTE] + c, seq![DQUOTE]);
            lemma_text_at_split(s, a, seq![DQUOTE], c);
            lemma_text_at_byte(s, a, t, c.len() + 1int);
            lemma_scan_string(s, a, a + 1, b, c, 0);
        },
        _ => {
            lemma_scalar_word_bytes(s, a, v);
            lemma_scan_words(s, a, a, b, b);
        },
    }
    assert(structural_start(s, a, b) == a);
}

/// Valid JSON within the nesting limit keeps its value: a JSON document of
/// `v` is repaired into the compact text of `v`, exponent markers written
/// `e`.
pub proof fn lemma_valid_json_kept(s: Seq<u8>, v: Json)
    requires
        json_document(s, v),
        json_value(v),
        nests_within(v, MAX_DEPTH as int),
    ensures
        repair_text(s) == Ok::<Seq<u8>, RepairError>(render(v, true)),
{
    lemma_document_located(s, v);
    let a = ws_end(s, 0);
    let b = value_span(s, a, v).unwrap();
    lemma_value_reads(s, a, b, b, 0, v);
}

/// Valid JSON that opens more than `MAX_DEPTH` containers at once is
/// refused.
pub proof fn lemma_deep_json_refused(s: Seq<u8>, v: Json)
    requires
        json_document(s, v),
        json_value(v),
        !nests_within(v, MAX_DEPTH as int),
    ensures
        repair_text(s) == Err::<Seq<u8>, RepairError>(RepairError::Depth(DepthLimitExceeded)),
{
    lemma_document_located(s, v);
    let a = ws_end(s, 0);
    let b = value_span(s, a, v).unwrap();
    lemma_value_refused(s, a, b, b, 0, v);
}

// ---------------------------------------------------------------------------
// Compact text is a JSON document; repairing twice is repairing once
// ---------------------------------------------------------------------------

/// The first byte of a value's compact text is not whitespace.
pub proof fn lemma_render_starts(s: Seq<u8>, p: int, v: Json)
    requires
        json_value(v),
        text_at(s, p, render(v, false)),
    ensures
        p < s.len(),
        !is_json_ws(s[p]),
{
    lemma_render_first(v);
    lemma_text_at_byte(s, p, render(v, false), 0);
}

/// The compact text of a value is a text of it.
pub proof fn lemma_render_span(s: Seq<u8>, p: int, v: Json)
    requires
        json_value(v),
        text_at(s, p, render(v, false)),
    ensures
        value_span(s, p, v) == Some(p + render(v, false).len()),
    decreases v,
{
    match v {
        Json::Array(items) => {
            let ri = render_items(items, false, false);
            lemma_text_at_split(s, p, seq![0x5Bu8] + ri, seq![0x5Du8]);
            lemma_text_at_split(s, p, seq![0x5Bu8], ri);
            lemma_text_at_byte(s, p, render(v, false), 0);
            lemma_text_at_byte(s, p + 1 + ri.len(), seq![0x5Du8], 0);
            lemma_render_items_span(s, p + 1, items, false);
        },
        Json::Object(ms) => {
            let rm = render_members(ms, false, false);
            lemma_text_at_split(s, p, seq![0x7Bu8] + rm, seq![0x7Du8]);
            lemma_text_at_split(s, p, seq![0x7Bu8], rm);
            lemma_text_at_byte(s, p, render(v, false), 0);
            lemma_text_at_byte(s, p + 1 + rm.len(), seq![0x7Du8], 0);
            lemma_render_members_span(s, p + 1, ms, false);
        },
        _ => {},
    }
}

pub proof fn lemma_render_items_span(s: Seq<u8>, p: int, items: Seq<Json>, has: bool)
    requires
        json_items(items),
        text_at(s, p, render_items(items, has, false)),
        p + render_items(items, has, false).len() < s.len(),
        !is_json_ws(s[p + render_items(items, has, false).len()]),
    ensures
        items_span(s, p, items, has) == Some(p + render_items(items, has, false).len()),
    decreases items,
{
    if items.len() > 0 {
        let sep = if has {
            seq![0x2Cu8]
        } else {
            seq![]
        };
        let r0 = render(items[0], false);
        let tail = items.subrange(1, items.len() as int);
        let rest = render_items(tail, true, false);
        lemma_text_at_split(s, p, sep + r0, rest);
        lemma_text_at_split(s, p, sep, r0);
        lemma_render_starts(s, p + sep.len(), items[0]);
        lemma_render_span(s, p + sep.len(), items[0]);
        lemma_render_items_span(s, p + sep.len() + r0.len(), tail, true);
        if has {
            lemma_text_at_byte(s, p, sep, 0);
            assert(ws_end(s, p + 1) == p + 1);
        }
        assert(ws_end(s, p) == p);
    }
}

pub proof fn lemma_render_members_span(s: Seq<u8>, p: int, ms: Seq<(Seq<u8>, Json)>, has: bool)
    requires
        json_members(ms),
        text_at(s, p, render_members(ms, has, false)),
        p + render_members(ms, has, false).len() < s.len(),
        !is_json_ws(s[p + render_members(ms, has, false).len()]),
    ensures
        members_span(s, p, ms, has) == Some(p + render_members(ms, has, false).len()),
    decreases ms,
{
    if ms.len() > 0 {
        let sep = if has {
            seq![0x2Cu8]
        } else {
            seq![]
        };
        let k = ms[0].0;
        let r0 = render(ms[0].1, false);
        let tail = ms.subrange(1, ms.len() as int);
        let rest = render_members(tail, true, false);
        let head = sep + seq![DQUOTE] + k + seq![DQUOTE, 0x3Au8];
        assert(render_members(ms, has, false) == head + r0 + rest);
        lemma_text_at_split(s, p, head + r0, rest);
        lemma_text_at_split(s, p, head, r0);
        let a = p + sep.len();
        let key = seq![DQUOTE] + k + seq![DQUOTE];
        assert(head =~= sep + key + seq![0x3Au8]);
        lemma_text_at_split(s, p, sep + key, seq![0x3Au8]);
        lemma_text_at_split(s, p, sep, key);
        let c = a + key.len();
        lemma_text_at_byte(s, c, seq![0x3Au8], 0);
        assert(ws_end(s, c) == c);
        lemma_render_starts(s, c + 1, ms[0].1);
        assert(ws_end(s, c + 1) == c + 1);
        lemma_render_span(s, c + 1, ms[0].1);
        lemma_render_members_span(s, c + 1 + r0.len(), tail, true);
        if has {
            lemma_text_at_byte(s, p, sep, 0);
            lemma_text_at_byte(s, p, sep + key, 1);
            assert(ws_end(s, p + 1) == p + 1);
        } else {
            lemma_text_at_byte(s, p, key, 0);
        }
        assert(ws_end(s, p) == p);
    }
}

/// The compact text of a JSON value is a JSON document of it.
pub proof fn lemma_render_document(v: Json)
    requires
        json_value(v),
    ensures
        json_document(render(v, false), v),
{
    let s = render(v, false);
    assert(s.subrange(0, s.len() as int) =~= s);
    lemma_render_starts(s, 0, v);
    assert(ws_end(s, 0) == 0);
    lemma_render_span(s, 0, v);
}

/// Repairing repaired text changes nothing.
pub proof fn lemma_repair_idempotent(input: Seq<u8>)
    ensures
        repair_text(input) matches Ok(t) ==> repair_text(t) == Ok::<Seq<u8>, RepairError>(t),
{
    lemma_repair_writes_json(input);
    if let Ok(t) = repair_text(input) {
        let v = choose|v: Json|
            {
                &&& json_value(v)
                &&& nests_within(v, MAX_DEPTH as int)
                &&& render(v, false) == t
                &&& render(v, true) == t
            };
        lemma_render_document(v);
        lemma_valid_json_kept(t, v);
    }
}

// ---------------------------------------------------------------------------
// Text after an object or array is ignored
// ---------------------------------------------------------------------------

/// Trailing whitespace is trimmed back no further than a byte that is not
/// whitespace.
pub proof fn lemma_trim_ws_stops_at(s: Seq<u8>, st: int, q: int, e: int)
    requires
        st < q <= e <= s.len(),
        !is_ws(s[q - 1]),
    ensures
        q <= trim_ws_back(s, st, e) <= e,
    decreases e - q,
{
    if e > st && is_ws(s[e - 1]) {
        lemma_trim_ws_stops_at(s, st, q, e - 1);
    }
}

/// A text that starts, after whitespace, with a JSON object or array within
/// the nesting limit is repaired into the compact text of that object or
/// array, whatever follows it.
pub proof fn lemma_container_kept_before_text(x: Seq<u8>, v: Json)
    requires
        value_span(x, ws_end(x, 0), v) is Some,
        v is Array || v is Object,
        json_value(v),
        nests_within(v, MAX_DEPTH as int),
    ensures
        repair_text(x) == Ok::<Seq<u8>, RepairError>(render(v, true)),
{
    let n = x.len() as int;
    let a = ws_end(x, 0);
    let q = value_span(x, a, v).unwrap();
    lemma_ws_end_bounds(x, 0);
    lemma_value_span_ends(x, a, v);
    // No byte-order mark.
    if a > 0 {
        assert(is_json_ws(x[0]));
    }
    assert(!has_bom(x));
    assert(strip_bom(x) == x);
    // No opening fence; the payload reaches at least past the container.
    lemma_skip_ws_json(x, 0, n);
    assert(fence_start(x) == a);
    lemma_trim_ws_stops_at(x, a, q, n);
    let e1 = trim_ws_back(x, a, n);
    if e1 - a >= 3 && is_fence_at(x, e1 - 3) {
        assert(e1 - 3 >= q);
        lemma_trim_ws_stops_at(x, a, q, e1 - 3);
    }
    let e = fence_end(x);
    crate::lexer::lemma_fence_bounds(x);
    assert(q <= e <= n);
    // The container is the first `{` or `[`.
    lemma_trivia_stops(x, a, e);
    assert(structural_start(x, a, e) == a);
    assert(ws_end(x, a) == a);
    lemma_value_reads(x, a, q, e, 0, v);
}

/// Text after a repaired object or array is ignored: the repair of a
/// repaired object or array followed by any text is that object or array.
pub proof fn lemma_trailing_text_ignored(input: Seq<u8>, t: Seq<u8>)
    ensures
        match repair_text(input) {
            Ok(s) => s.len() > 0 && (s[0] == 0x7Bu8 || s[0] == 0x5Bu8) ==> repair_text(s + t)
                == Ok::<Seq<u8>, RepairError>(s),
            Err(_) => true,
        },
{
    lemma_repair_writes_json(input);
    if let Ok(s) = repair_text(input) {
        if s.len() > 0 && (s[0] == 0x7Bu8 || s[0] == 0x5Bu8) {
            let v = choose|v: Json|
                {
                    &&& json_value(v)
                    &&& nests_within(v, MAX_DEPTH as int)
                    &&& render(v, false) == s
                    &&& render(v, true) == s
                };
            let x = s + t;
            lemma_render_first(v);
            assert(x.subrange(0, s.len() as int) =~= s);
            lemma_render_span(x, 0, v);
            assert(ws_end(x, 0) == 0);
            lemma_container_kept_before_text(x, v);
        }
    }
}

} // verus!
