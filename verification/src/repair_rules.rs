//! The documented repair rules, stated over all inputs: numeric and bare
//! keys are kept, an unterminated string keeps every byte up to the end of
//! input, a decimal with an empty fraction is completed with `0`, a block
//! comment runs to the first `*/` across line breaks, and an unknown escape
//! loses its backslash but keeps its character.
use vstd::prelude::*;
use crate::lexer::{
    is_digit, is_alnum, block_end, skip_trivia_from, token_end, ends_token, scan_structural,
    structural_start, strip_bom, has_bom, fence_start, fence_end, is_fence_at, skip_ws,
    trim_ws_back, BACKSLASH, BACKTICK, DQUOTE, DOT, SLASH, STAR,
};
use crate::parser::{
    number_text, find_exp, find_dot, skip_zeros, lemma_mantissa_ok_by_dot, escape_at,
    escape_byte, escape_bytes, string_body, string_at, members, member_at, key_at,
    value_search, glued_quote, repair_text, RepairError, MAX_DEPTH, ZERO,
};
use crate::json::{Json, render, json_value, nests_within, text_at, ws_end};
use crate::json_laws::{closes, lemma_text_at_byte, lemma_render_first};
use crate::valid_json::{lemma_render_span, lemma_value_reads, lemma_scan_quoted_plain};

verus! {

// ---------------------------------------------------------------------------
// Numbers
// ---------------------------------------------------------------------------

/// A decimal written as an optional sign, digits, a dot and digits, one
/// side of the dot possibly empty, is a number: it keeps a `-` sign, its
/// integer digits (`0` when there are none) and its fraction digits (`0`
/// when there are none). `5.` is `5.0`, `.5` is `0.5`, `+5.` is `5.0`,
/// `-.5` is `-0.5`.
pub proof fn lemma_decimal_is_number(sg: Seq<u8>, d: Seq<u8>, f: Seq<u8>)
    requires
        sg == Seq::<u8>::empty() || sg == seq![0x2Du8] || sg == seq![0x2Bu8],
        forall|i: int| 0 <= i < d.len() ==> is_digit(#[trigger] d[i]),
        forall|i: int| 0 <= i < f.len() ==> is_digit(#[trigger] f[i]),
        d.len() + f.len() > 0,
        d.len() > 1 ==> d[0] != ZERO,
    ensures
        number_text(sg + d + seq![DOT] + f) == Some(
            (if sg == seq![0x2Du8] {
                seq![0x2Du8]
            } else {
                Seq::<u8>::empty()
            }) + (if d.len() == 0 {
                seq![ZERO]
            } else {
                d
            }) + seq![DOT] + (if f.len() == 0 {
                seq![ZERO]
            } else {
                f
            }),
        ),
{
    let t = sg + d + seq![DOT] + f;
    let n = t.len() as int;
    let b = sg.len() as int;
    let dl = d.len() as int;
    let dot = b + dl;
    assert(t[dot] == DOT);
    assert forall|i: int| b <= i < dot implies #[trigger] t[i] == d[i - b] by {}
    assert forall|i: int| dot < i < n implies #[trigger] t[i] == f[i - dot - 1] by {}
    assert forall|i: int| b <= i < n implies (#[trigger] t[i] != 0x65u8 && t[i] != 0x45u8) by {
        if i < dot {
            assert(t[i] == d[i - b]);
        } else if i > dot {
            assert(t[i] == f[i - dot - 1]);
        }
    }
    assert(crate::parser::sign_len(t) == b) by {
        if b == 0 && dl > 0 {
            assert(t[0] == d[0]);
        }
        if b == 1 {
            assert(t[0] == sg[0]);
        }
    }
    lemma_find_exp_none(t, b);
    lemma_find_dot_at(t, b, dot, n);
    assert forall|i: int| b <= i < n implies is_digit(#[trigger] t[i]) || t[i] == DOT by {
        if i < dot {
            assert(t[i] == d[i - b]);
        } else if i > dot {
            assert(t[i] == f[i - dot - 1]);
        }
    }
    assert forall|i: int| dot < i < n implies #[trigger] t[i] != DOT by {
        assert(t[i] == f[i - dot - 1]);
    }
    lemma_mantissa_ok_by_dot(t, b, n);
    if dl == 0 {
        assert(skip_zeros(t, b, b) == b);
    } else if d[0] != ZERO {
        assert(t[b] == d[0]);
        assert(skip_zeros(t, b, dot) == b);
        assert(t.subrange(b, dot) =~= d);
    } else {
        assert(t[b] == ZERO);
        assert(skip_zeros(t, b + 1, b + 1) == b + 1);
        assert(skip_zeros(t, b, b + 1) == b + 1);
        assert(d =~= seq![ZERO]);
    }
    assert(t.subrange(dot + 1, n) =~= f);
    if b == 1 {
        assert(t[0] == sg[0]);
    }
}

proof fn lemma_find_exp_none(t: Seq<u8>, i: int)
    requires
        0 <= i <= t.len(),
        forall|j: int| i <= j < t.len() ==> (#[trigger] t[j] != 0x65u8 && t[j] != 0x45u8),
    ensures
        find_exp(t, i) == t.len(),
    decreases t.len() - i,
{
    if i < t.len() {
        assert(t[i] != 0x65u8 && t[i] != 0x45u8);
        lemma_find_exp_none(t, i + 1);
    }
}

proof fn lemma_find_dot_at(t: Seq<u8>, i: int, dl: int, k: int)
    requires
        0 <= i <= dl < k <= t.len(),
        t[dl] == DOT,
        forall|j: int| i <= j < dl ==> #[trigger] t[j] != DOT,
    ensures
        find_dot(t, i, k) == dl,
    decreases dl - i,
{
    if i < dl {
        assert(t[i] != DOT);
        lemma_find_dot_at(t, i + 1, dl, k);
    }
}

// ---------------------------------------------------------------------------
// Block comments
// ---------------------------------------------------------------------------

/// `*/` stands at `m`.
pub open spec fn closes_comment_at(s: Seq<u8>, m: int) -> bool {
    s[m] == STAR && s[m + 1] == SLASH
}

/// A block comment whose body starts at `q` ends just past the first `*/`
/// at or after `q`, whatever line breaks come before it, or at the end of
/// the window when there is none.
pub proof fn lemma_block_comment_end(s: Seq<u8>, q: int, e: int)
    requires
        0 <= q <= e <= s.len(),
    ensures
        ({
            let r = block_end(s, q, e);
            ||| r == e && forall|m: int| q <= m < e - 1 ==> !closes_comment_at(s, m)
            ||| q + 2 <= r <= e && closes_comment_at(s, r - 2) && forall|m: int|
                q <= m < r - 2 ==> !closes_comment_at(s, m)
        }),
    decreases e - q,
{
    if q + 1 < e && !closes_comment_at(s, q) {
        lemma_block_comment_end(s, q + 1, e);
    }
}

// ---------------------------------------------------------------------------
// Escapes and strings
// ---------------------------------------------------------------------------

/// After a backslash, a printable byte that starts no JSON escape (not one of
/// `" \ / b f n r t u`) is kept, and the backslash is dropped: `\'` reads as
/// `'` and `\q` as `q`.
pub proof fn lemma_unknown_escape_keeps_char(s: Seq<u8>, q: int, e: int)
    requires
        0 <= q < e <= s.len(),
        s[q] >= 0x20u8,
        !(s[q] == DQUOTE || s[q] == BACKSLASH || s[q] == SLASH || s[q] == 0x62u8 || s[q] == 0x66u8
            || s[q] == 0x6Eu8 || s[q] == 0x72u8 || s[q] == 0x74u8 || s[q] == 0x75u8),
    ensures
        escape_at(s, q, e) == (q + 1, seq![s[q]]),
{
}

/// Plain text, with no quote, backslash or control byte, is written as
/// itself.
pub open spec fn plain_text(t: Seq<u8>) -> bool {
    forall|i: int| 0 <= i < t.len() ==> #[trigger] t[i] >= 0x20u8 && t[i] != DQUOTE && t[i]
        != BACKSLASH
}

pub proof fn lemma_escape_plain(t: Seq<u8>)
    requires
        plain_text(t),
    ensures
        escape_bytes(t) == t,
    decreases t.len(),
{
    if t.len() > 0 {
        assert(plain_text(t.drop_last()));
        lemma_escape_plain(t.drop_last());
        assert(t[t.len() - 1] >= 0x20u8);
        assert(escape_bytes(t.drop_last()) + escape_byte(t.last()) =~= t);
    }
}

/// A string that is never closed keeps every byte from its opening quote to
/// the end of the window, each escaped, and is closed there.
pub proof fn lemma_unclosed_string_body(s: Seq<u8>, q: int, e: int, quote: u8)
    requires
        0 <= q <= e <= s.len(),
        forall|m: int| q <= m < e ==> #[trigger] s[m] != quote && s[m] != BACKSLASH,
    ensures
        string_body(s, q, e, quote) == (e, escape_bytes(s.subrange(q, e)) + seq![DQUOTE]),
    decreases e - q,
{
    if q < e {
        assert(s[q] != quote && s[q] != BACKSLASH);
        lemma_unclosed_string_body(s, q + 1, e, quote);
        lemma_escape_bytes_front(s.subrange(q, e));
        assert(s.subrange(q, e).drop_first() =~= s.subrange(q + 1, e));
        assert(s.subrange(q, e)[0] == s[q]);
    } else {
        assert(s.subrange(q, e) =~= Seq::<u8>::empty());
    }
}

/// Escaping a text escapes its first byte, then the rest.
pub proof fn lemma_escape_bytes_front(t: Seq<u8>)
    requires
        t.len() > 0,
    ensures
        escape_bytes(t) == escape_byte(t[0]) + escape_bytes(t.drop_first()),
    decreases t.len(),
{
    if t.len() == 1 {
        assert(t.drop_last() =~= Seq::<u8>::empty());
        assert(t.drop_first() =~= Seq::<u8>::empty());
        assert(escape_byte(t[0]) + Seq::<u8>::empty() =~= escape_byte(t[0]));
    } else {
        lemma_escape_bytes_front(t.drop_last());
        assert(t.drop_last().drop_first() =~= t.drop_first().drop_last());
        assert(t.drop_first().last() == t.last());
        assert(t.drop_last()[0] == t[0]);
        assert(escape_byte(t[0]) + escape_bytes(t.drop_first().drop_last()) + escape_byte(t.last())
            =~= escape_byte(t[0]) + (escape_bytes(t.drop_first().drop_last()) + escape_byte(
            t.last(),
        )));
    }
}

// ---------------------------------------------------------------------------
// Whole repairs
// ---------------------------------------------------------------------------

/// Bytes of a bare word: letters, digits, `_`, `$`, `-` and the bytes of
/// non-ASCII characters.
pub open spec fn bare_word_byte(b: u8) -> bool {
    is_alnum(b) || b == 0x5Fu8 || b == 0x24u8 || b == 0x2Du8 || b >= 0x80u8
}

/// A run of bare-word bytes is one bare token when a byte that ends tokens
/// follows it.
pub proof fn lemma_word_token_end(s: Seq<u8>, p: int, q: int, e: int)
    requires
        0 <= p <= q < e <= s.len(),
        forall|m: int| p <= m < q ==> bare_word_byte(#[trigger] s[m]),
        ends_token(s, q, e),
    ensures
        token_end(s, p, e) == q,
    decreases q - p,
{
    if p < q {
        assert(bare_word_byte(s[p]));
        assert(!ends_token(s, p, e));
        lemma_word_token_end(s, p + 1, q, e);
    }
}

/// An object written with one member whose key is a bare word, such as a
/// Python dict's `1`, `-2`, `name` or a Unicode word, keeps that key, quoted,
/// and gives it the member's value: `{1:"one"}` is repaired as
/// `{"1":"one"}`.
pub proof fn lemma_bare_key_kept(k: Seq<u8>, v: Json)
    requires
        k.len() > 0,
        forall|i: int| 0 <= i < k.len() ==> bare_word_byte(#[trigger] k[i]),
        json_value(v),
        nests_within(v, MAX_DEPTH - 1),
    ensures
        repair_text(seq![0x7Bu8] + k + seq![0x3Au8] + render(v, false) + seq![0x7Du8]) == Ok::<
            Seq<u8>,
            RepairError,
        >(seq![0x7Bu8, DQUOTE] + k + seq![DQUOTE, 0x3Au8] + render(v, true) + seq![0x7Du8]),
{
    let r = render(v, false);
    let x = seq![0x7Bu8] + k + seq![0x3Au8] + r + seq![0x7Du8];
    let n = x.len() as int;
    let q = 1 + k.len() as int;
    let b = q + 1 + r.len() as int;
    assert(n == b + 1);
    assert(x[0] == 0x7Bu8);
    assert(x[q] == 0x3Au8);
    assert(x[b] == 0x7Du8);
    assert forall|m: int| 1 <= m < q implies bare_word_byte(#[trigger] x[m]) by {
        assert(x[m] == k[m - 1]);
    }
    assert(x.subrange(1, q) =~= k);
    assert(x.subrange(q + 1, b) =~= r);
    assert(text_at(x, q + 1, r));
    // The window is the whole text, and the object starts it.
    assert(!has_bom(x));
    assert(strip_bom(x) == x);
    assert(skip_ws(x, 0, n) == 0);
    assert(fence_start(x) == 0);
    assert(trim_ws_back(x, 0, n) == n);
    assert(!is_fence_at(x, n - 3));
    assert(fence_end(x) == n);
    assert(skip_trivia_from(x, 0, n) == 0);
    assert(structural_start(x, 0, n) == 0);
    assert(value_search(x, 0, n) == 0);
    // The key.
    assert(bare_word_byte(x[1]));
    assert(skip_trivia_from(x, 1, n) == 1);
    lemma_word_token_end(x, 1, q, n);
    assert(plain_text(k)) by {
        assert forall|i: int| 0 <= i < k.len() implies #[trigger] k[i] >= 0x20u8 && k[i] != DQUOTE
            && k[i] != BACKSLASH by {
            assert(bare_word_byte(k[i]));
        }
    }
    lemma_escape_plain(k);
    assert(key_at(x, 1, n) == (q, seq![DQUOTE] + k + seq![DQUOTE]));
    assert(skip_trivia_from(x, q, n) == q);
    // The value.
    lemma_render_first(v);
    lemma_text_at_byte(x, q + 1, r, 0);
    assert(ws_end(x, q + 1) == q + 1);
    lemma_render_span(x, q + 1, v);
    assert(closes(x, b, n));
    lemma_value_reads(x, q + 1, b, n, 1, v);
    assert(ends_token(x, b, n));
    assert(token_end(x, b, n) == b);
    assert(!glued_quote(x, value_search(x, q + 1, n), b, n));
    let entry = seq![DQUOTE] + k + seq![DQUOTE] + seq![0x3Au8] + render(v, true);
    assert(member_at(x, 1, n, 1, false) == Ok::<(int, Seq<u8>), RepairError>((b, entry))) by {
        assert(Seq::<u8>::empty() + (seq![DQUOTE] + k + seq![DQUOTE]) + seq![0x3Au8] + render(
            v,
            true,
        ) =~= entry);
    }
    assert(skip_trivia_from(x, b, n) == b);
    assert(members(x, b, n, 1, true) == Ok::<(int, Seq<u8>), RepairError>((n, seq![])));
    assert(members(x, 1, n, 1, false) == Ok::<(int, Seq<u8>), RepairError>((n, entry))) by {
        assert(entry + Seq::<u8>::empty() =~= entry);
    }
    assert(seq![0x7Bu8] + entry + seq![0x7Du8] =~= seq![0x7Bu8, DQUOTE] + k + seq![DQUOTE, 0x3Au8]
        + render(v, true) + seq![0x7Du8]);
}

/// A string left open at the end of the input keeps every byte after its
/// opening quote and is closed: `"Alice` is repaired as `"Alice"`.
pub proof fn lemma_unclosed_string_kept(c: Seq<u8>)
    requires
        c.len() > 0,
        plain_text(c),
        c.last() != 0x20u8,
        c.last() != BACKTICK,
    ensures
        repair_text(seq![DQUOTE] + c) == Ok::<Seq<u8>, RepairError>(
            seq![DQUOTE] + c + seq![DQUOTE],
        ),
{
    let x = seq![DQUOTE] + c;
    let n = x.len() as int;
    assert(x[0] == DQUOTE);
    assert(x[n - 1] == c.last());
    assert(x[n - 1] >= 0x20u8);
    assert forall|m: int| 1 <= m < n implies #[trigger] x[m] != DQUOTE && x[m] != BACKSLASH by {
        assert(x[m] == c[m - 1]);
    }
    assert(x.subrange(1, n) =~= c);
    // The window is the whole text.
    assert(!has_bom(x));
    assert(strip_bom(x) == x);
    assert(skip_ws(x, 0, n) == 0);
    assert(fence_start(x) == 0);
    assert(trim_ws_back(x, 0, n) == n);
    assert(!is_fence_at(x, n - 3));
    assert(fence_end(x) == n);
    // No container stands outside the open quote.
    assert(skip_trivia_from(x, 0, n) == 0);
    lemma_scan_quoted_plain(x, 0, 1, n - 1, n);
    assert(x[n - 1] != BACKSLASH && x[n - 1] != DQUOTE);
    assert(scan_structural(x, 0, n, n, Some(DQUOTE)) == 0);
    assert(scan_structural(x, 0, n - 1, n, Some(DQUOTE)) == 0);
    assert(structural_start(x, 0, n) == 0);
    assert(value_search(x, 0, n) == 0);
    // The string.
    lemma_unclosed_string_body(x, 1, n, DQUOTE);
    lemma_escape_plain(c);
    assert(string_at(x, 0, n) == (n, seq![DQUOTE] + (c + seq![DQUOTE])));
    assert(seq![DQUOTE] + (c + seq![DQUOTE]) =~= seq![DQUOTE] + c + seq![DQUOTE]);
}

} // verus!
