//! The repaired text is valid UTF-8 whenever the input is: the repair only
//! removes or inserts ASCII bytes, and copies every other byte together with
//! the rest of its character.
use vstd::prelude::*;
use vstd::utf8::{
    valid_utf8, valid_first_scalar, pop_first_scalar, length_of_first_scalar,
    is_continuation_byte, is_char_boundary, valid_utf8_concat, valid_utf8_split,
    is_char_boundary_iff_not_is_continuation_byte, is_char_boundary_start_end_of_seq,
    is_leading_byte_width_1, decode_first_codepoint,
};

use crate::parser::{
    escape_byte, escape_bytes, quoted, hex_char, string_body, escape_at, unicode_digits,
    lemma_escape_at_bounds, number_text,
    number_parts, sign_len, find_exp, find_dot, skip_zeros, mantissa_ok, exponent_ok,
    exp_digits_start, lemma_find_exp_bounds, lemma_find_dot_facts, lemma_skip_zeros_bounds,
    word_text, number_or_word_text, null_text, true_text, false_text, sign_text, int_text,
    frac_text, exp_text, value_search, value_at, members, member_at, elements, key_at,
    repair_text, is_value_start_byte, can_start_key_byte, lemma_value_search_bounds,
    MAX_DEPTH,
};
use crate::lexer::{
    DQUOTE, line_end, block_end, comment_stop, starts_comment_at, skip_trivia_from, token_end,
    ends_token, scan_structural, structural_start, skip_ws, skip_newlines, trim_ws_back,
    fence_start, fence_end, is_fence_at, has_bom, strip_bom, is_ws, is_newline,
    lemma_comment_stop_bounds, lemma_skip_ws_bounds, lemma_line_end_bounds,
    lemma_trim_ws_back_bounds, lemma_skip_trivia_bounds,
};

verus! {

/// Every byte is ASCII.
pub open spec fn is_ascii_text(x: Seq<u8>) -> bool {
    forall|i: int| 0 <= i < x.len() ==> #[trigger] x[i] < 0x80u8
}

/// A character starts at `i` (or `i` is the end): `i` is in bounds and no
/// continuation byte is there.
pub open spec fn char_start(s: Seq<u8>, i: int) -> bool {
    0 <= i <= s.len() && (i == s.len() || !is_continuation_byte(s[i]))
}

pub proof fn lemma_ascii_valid(x: Seq<u8>)
    requires
        is_ascii_text(x),
    ensures
        valid_utf8(x),
    decreases x.len(),
{
    if x.len() > 0 {
        let b = x[0];
        assert(b < 0x80u8);
        assert((b & 0x7Fu8) as u32 <= 0x7Fu32) by (bit_vector);
        assert(is_leading_byte_width_1(b));
        assert(decode_first_codepoint(x) <= 0x7Fu32);
        assert(valid_first_scalar(x));
        let rest = pop_first_scalar(x);
        assert(rest =~= x.subrange(1, x.len() as int));
        lemma_ascii_valid(rest);
    }
}

pub proof fn lemma_concat_ascii_valid(a: Seq<u8>, b: Seq<u8>)
    requires
        valid_utf8(a),
        is_ascii_text(b),
    ensures
        valid_utf8(a + b),
{
    lemma_ascii_valid(b);
    valid_utf8_concat(a, b);
}

pub proof fn lemma_char_start_boundary(s: Seq<u8>, i: int)
    requires
        valid_utf8(s),
        char_start(s, i),
    ensures
        is_char_boundary(s, i),
{
    if i == s.len() {
        is_char_boundary_start_end_of_seq(s);
    } else {
        is_char_boundary_iff_not_is_continuation_byte(s, i);
    }
}

/// The bytes between two character starts are valid UTF-8.
pub proof fn lemma_slice_valid(s: Seq<u8>, i: int, j: int)
    requires
        valid_utf8(s),
        char_start(s, i),
        char_start(s, j),
        i <= j,
    ensures
        valid_utf8(s.subrange(i, j)),
{
    lemma_char_start_boundary(s, i);
    valid_utf8_split(s, i);
    let u = s.subrange(i, s.len() as int);
    assert(char_start(u, j - i));
    lemma_char_start_boundary(u, j - i);
    valid_utf8_split(u, j - i);
    assert(u.subrange(0, j - i) =~= s.subrange(i, j));
}

/// An ASCII byte is a whole character: a character starts right after it.
pub proof fn lemma_char_start_after_ascii(s: Seq<u8>, i: int)
    requires
        valid_utf8(s),
        0 <= i < s.len(),
        s[i] < 0x80u8,
    ensures
        char_start(s, i + 1),
{
    assert(char_start(s, i));
    lemma_char_start_boundary(s, i);
    valid_utf8_split(s, i);
    let u = s.subrange(i, s.len() as int);
    assert(u[0] == s[i]);
    assert(valid_first_scalar(u));
    let rest = pop_first_scalar(u);
    assert(rest =~= s.subrange(i + 1, s.len() as int));
    if i + 1 < s.len() {
        assert(valid_utf8(rest));
        assert(valid_first_scalar(rest));
        assert(rest[0] == s[i + 1]);
    }
}

/// Dropping a byte-order mark leaves valid UTF-8.
pub proof fn lemma_drop_bom_valid(b: Seq<u8>)
    requires
        valid_utf8(b),
        b.len() >= 3,
        b[0] == 0xEFu8,
    ensures
        valid_utf8(b.subrange(3, b.len() as int)),
{
    assert(valid_first_scalar(b));
    assert(length_of_first_scalar(b) == 3);
    assert(pop_first_scalar(b) =~= b.subrange(3, b.len() as int));
}


// ---------------------------------------------------------------------------
// Escaping keeps validity
// ---------------------------------------------------------------------------

pub proof fn lemma_escape_bytes_concat(a: Seq<u8>, b: Seq<u8>)
    ensures
        escape_bytes(a + b) == escape_bytes(a) + escape_bytes(b),
    decreases b.len(),
{
    if b.len() == 0 {
        assert(a + b =~= a);
        assert(escape_bytes(a) + escape_bytes(b) =~= escape_bytes(a));
    } else {
        assert((a + b).drop_last() =~= a + b.drop_last());
        assert((a + b).last() == b.last());
        lemma_escape_bytes_concat(a, b.drop_last());
        assert(escape_bytes(a) + (escape_bytes(b.drop_last()) + escape_byte(b.last())) =~= (
        escape_bytes(a) + escape_bytes(b.drop_last())) + escape_byte(b.last()));
    }
}

pub proof fn lemma_escape_byte_ascii(b: u8)
    requires
        b < 0x80u8,
    ensures
        is_ascii_text(escape_byte(b)),
{
    if b < 0x20u8 {
        assert(b / 16 < 16 && b % 16 < 16);
        assert(hex_char(b / 16) < 0x80u8 && hex_char(b % 16) < 0x80u8);
    }
}

/// Bytes of multi-byte characters are copied unchanged.
pub proof fn lemma_escape_bytes_high(t: Seq<u8>)
    requires
        forall|i: int| 0 <= i < t.len() ==> #[trigger] t[i] >= 0x80u8,
    ensures
        escape_bytes(t) == t,
    decreases t.len(),
{
    if t.len() > 0 {
        lemma_escape_bytes_high(t.drop_last());
        assert(t.drop_last() + seq![t.last()] =~= t);
    }
}

pub proof fn lemma_escape_bytes_valid(x: Seq<u8>)
    requires
        valid_utf8(x),
    ensures
        valid_utf8(escape_bytes(x)),
    decreases x.len(),
{
    if x.len() > 0 {
        assert(valid_first_scalar(x) && valid_utf8(pop_first_scalar(x)));
        let n = length_of_first_scalar(x);
        assert(1 <= n <= x.len());
        let first = x.subrange(0, n);
        let rest = pop_first_scalar(x);
        assert(x =~= first + rest);
        lemma_escape_bytes_concat(first, rest);
        lemma_escape_bytes_valid(rest);
        if n == 1 {
            assert(first =~= seq![x[0]]);
            assert(seq![x[0]].drop_last() =~= Seq::<u8>::empty());
            assert(escape_bytes(first) == escape_bytes(Seq::<u8>::empty()) + escape_byte(x[0]));
            assert(escape_bytes(first) =~= escape_byte(x[0]));
            lemma_escape_byte_ascii(x[0]);
            lemma_ascii_valid(escape_bytes(first));
        } else {
            assert forall|i: int| 0 <= i < first.len() implies #[trigger] first[i] >= 0x80u8 by {
                assert(first[i] == x[i]);
            }
            lemma_escape_bytes_high(first);
            assert(valid_first_scalar(first)) by {
                assert(first[0] == x[0]);
                assert(first[1] == x[1]);
                if n >= 3 {
                    assert(first[2] == x[2]);
                }
                if n >= 4 {
                    assert(first[3] == x[3]);
                }
            }
            assert(pop_first_scalar(first) =~= Seq::<u8>::empty());
            assert(valid_utf8(Seq::<u8>::empty()));
            assert(valid_utf8(first));
        }
        valid_utf8_concat(escape_bytes(first), escape_bytes(rest));
    }
}

pub proof fn lemma_quoted_valid(x: Seq<u8>)
    requires
        valid_utf8(x),
    ensures
        valid_utf8(quoted(x)),
{
    lemma_escape_bytes_valid(x);
    lemma_ascii_valid(seq![DQUOTE]);
    valid_utf8_concat(seq![DQUOTE], escape_bytes(x));
    lemma_concat_ascii_valid(seq![DQUOTE] + escape_bytes(x), seq![DQUOTE]);
}


// ---------------------------------------------------------------------------
// The lexer stops only where characters start
// ---------------------------------------------------------------------------

/// The lexer's bytes are valid UTF-8 and its window ends where a character
/// starts.
pub open spec fn window_ok(s: Seq<u8>, e: int) -> bool {
    valid_utf8(s) && char_start(s, e)
}

pub proof fn lemma_line_end_char_start(s: Seq<u8>, q: int, e: int)
    requires
        window_ok(s, e),
        0 <= q <= e,
    ensures
        char_start(s, line_end(s, q, e)),
    decreases e - q,
{
    if q < e && !is_newline(s[q]) {
        lemma_line_end_char_start(s, q + 1, e);
    }
}

pub proof fn lemma_block_end_char_start(s: Seq<u8>, q: int, e: int)
    requires
        window_ok(s, e),
        0 <= q <= e,
    ensures
        char_start(s, block_end(s, q, e)),
    decreases e - q,
{
    if q + 1 < e {
        if s[q] == 0x2Au8 && s[q + 1] == 0x2Fu8 {
            lemma_char_start_after_ascii(s, q + 1);
        } else {
            lemma_block_end_char_start(s, q + 1, e);
        }
    }
}

pub proof fn lemma_skip_trivia_char_start(s: Seq<u8>, p: int, e: int)
    requires
        window_ok(s, e),
        char_start(s, p),
        p <= e,
    ensures
        char_start(s, skip_trivia_from(s, p, e)),
    decreases e - p,
{
    if p < e && is_ws(s[p]) {
        lemma_char_start_after_ascii(s, p);
        lemma_skip_trivia_char_start(s, p + 1, e);
    } else if starts_comment_at(s, p, e) {
        lemma_comment_stop_bounds(s, p, e);
        lemma_line_end_char_start(s, p + 2, e);
        lemma_block_end_char_start(s, p + 2, e);
        lemma_skip_trivia_char_start(s, comment_stop(s, p, e), e);
    }
}

pub proof fn lemma_token_end_stop(s: Seq<u8>, p: int, e: int)
    requires
        0 <= p <= e,
    ensures
        token_end(s, p, e) >= e || ends_token(s, token_end(s, p, e), e),
    decreases e - p,
{
    if p < e && !ends_token(s, p, e) {
        lemma_token_end_stop(s, p + 1, e);
    }
}

pub proof fn lemma_token_end_char_start(s: Seq<u8>, p: int, e: int)
    requires
        window_ok(s, e),
        0 <= p <= e,
    ensures
        char_start(s, token_end(s, p, e)),
{
    lemma_token_end_stop(s, p, e);
    crate::lexer::lemma_token_end_bounds(s, p, e);
    let q = token_end(s, p, e);
    if q < e {
        assert(s[q] < 0x80u8);
    }
}

pub proof fn lemma_scan_structural_char_start(
    s: Seq<u8>,
    st: int,
    c: int,
    e: int,
    quote: Option<u8>,
)
    requires
        window_ok(s, e),
        char_start(s, st),
        0 <= st <= c,
        st <= e,
    ensures
        char_start(s, scan_structural(s, st, c, e, quote)),
    decreases e - c,
{
    if c < e {
        let b = s[c];
        match quote {
            Some(q) => {
                if b == 0x5Cu8 {
                    lemma_scan_structural_char_start(
                        s,
                        st,
                        if c + 2 < e {
                            c + 2
                        } else {
                            e
                        },
                        e,
                        quote,
                    );
                } else if b == q {
                    lemma_scan_structural_char_start(s, st, c + 1, e, None);
                } else {
                    lemma_scan_structural_char_start(s, st, c + 1, e, quote);
                }
            },
            None => {
                if b == 0x27u8 && crate::lexer::word_apostrophe_at(s, st, c, e) {
                    lemma_scan_structural_char_start(s, st, c + 1, e, None);
                } else if b == 0x22u8 || b == 0x27u8 {
                    lemma_scan_structural_char_start(s, st, c + 1, e, Some(b));
                } else if starts_comment_at(s, c, e) {
                    lemma_comment_stop_bounds(s, c, e);
                    lemma_scan_structural_char_start(s, st, comment_stop(s, c, e), e, None);
                } else if b == 0x7Bu8 || b == 0x5Bu8 {
                } else {
                    lemma_scan_structural_char_start(s, st, c + 1, e, None);
                }
            },
        }
    }
}

pub proof fn lemma_structural_start_char_start(s: Seq<u8>, p: int, e: int)
    requires
        window_ok(s, e),
        char_start(s, p),
        p <= e,
    ensures
        char_start(s, structural_start(s, p, e)),
{
    lemma_skip_trivia_char_start(s, p, e);
    lemma_skip_trivia_bounds(s, p, e);
    let p1 = skip_trivia_from(s, p, e);
    if p1 < e {
        lemma_scan_structural_char_start(s, p1, p1, e, None);
    }
}

pub proof fn lemma_skip_ws_char_start(s: Seq<u8>, i: int, e: int)
    requires
        valid_utf8(s),
        char_start(s, i),
        e <= s.len(),
    ensures
        char_start(s, skip_ws(s, i, e)),
    decreases e - i,
{
    if i < e && is_ws(s[i]) {
        lemma_char_start_after_ascii(s, i);
        lemma_skip_ws_char_start(s, i + 1, e);
    }
}

pub proof fn lemma_skip_newlines_char_start(s: Seq<u8>, i: int, e: int)
    requires
        valid_utf8(s),
        char_start(s, i),
        e <= s.len(),
    ensures
        char_start(s, skip_newlines(s, i, e)),
    decreases e - i,
{
    if i < e && is_newline(s[i]) {
        lemma_char_start_after_ascii(s, i);
        lemma_skip_newlines_char_start(s, i + 1, e);
    }
}

pub proof fn lemma_trim_ws_back_char_start(s: Seq<u8>, st: int, e: int)
    requires
        valid_utf8(s),
        char_start(s, e),
        0 <= st,
    ensures
        char_start(s, trim_ws_back(s, st, e)),
    decreases e - st,
{
    if e > st && is_ws(s[e - 1]) {
        assert(char_start(s, e - 1));
        lemma_trim_ws_back_char_start(s, st, e - 1);
    }
}

pub proof fn lemma_fences_char_start(s: Seq<u8>)
    requires
        valid_utf8(s),
    ensures
        char_start(s, fence_start(s)),
        char_start(s, fence_end(s)),
{
    let n = s.len() as int;
    lemma_char_start_boundary_zero(s);
    lemma_skip_ws_char_start(s, 0, n);
    lemma_skip_ws_bounds(s, 0, n);
    let a = skip_ws(s, 0, n);
    if n - a >= 3 && is_fence_at(s, a) {
        lemma_line_end_bounds(s, a + 3, n);
        lemma_line_end_char_start(s, a + 3, n);
        lemma_skip_newlines_char_start(s, line_end(s, a + 3, n), n);
    }
    let st = fence_start(s);
    crate::lexer::lemma_fence_bounds(s);
    lemma_trim_ws_back_char_start(s, st, n);
    lemma_trim_ws_back_bounds(s, st, n);
    let e1 = trim_ws_back(s, st, n);
    if e1 - st >= 3 && is_fence_at(s, e1 - 3) {
        assert(char_start(s, e1 - 3));
        lemma_trim_ws_back_char_start(s, st, e1 - 3);
    }
}

pub proof fn lemma_char_start_boundary_zero(s: Seq<u8>)
    requires
        valid_utf8(s),
    ensures
        char_start(s, 0),
{
    if s.len() > 0 {
        assert(valid_first_scalar(s));
    }
}

pub proof fn lemma_strip_bom_valid(b: Seq<u8>)
    requires
        valid_utf8(b),
    ensures
        valid_utf8(strip_bom(b)),
{
    if has_bom(b) {
        lemma_drop_bom_valid(b);
    }
}


// ---------------------------------------------------------------------------
// Strings, numbers and words
// ---------------------------------------------------------------------------

pub proof fn lemma_unicode_digits_ascii(s: Seq<u8>, q: int, e: int, k: nat)
    requires
        window_ok(s, e),
        char_start(s, q),
        q <= e,
    ensures
        char_start(s, unicode_digits(s, q, e, k).0),
        is_ascii_text(unicode_digits(s, q, e, k).1),
    decreases k,
{
    if k > 0 {
        if 0 <= q < e && crate::lexer::is_hex(s[q]) {
            lemma_char_start_after_ascii(s, q);
            lemma_unicode_digits_ascii(s, q + 1, e, (k - 1) as nat);
        } else {
            lemma_unicode_digits_ascii(s, q, e, (k - 1) as nat);
        }
    }
}

/// The text of a string from `q`, after the pending bytes `s[m..q]` of the
/// character that started at `m`, is valid UTF-8, and the string ends where
/// a character starts.
pub proof fn lemma_string_body_valid(s: Seq<u8>, m: int, q: int, e: int, quote: u8)
    requires
        window_ok(s, e),
        char_start(s, m),
        0 <= m <= q <= e,
        quote < 0x80u8,
    ensures
        valid_utf8(s.subrange(m, q) + string_body(s, q, e, quote).1),
        char_start(s, string_body(s, q, e, quote).0),
    decreases e - q,
{
    let body = string_body(s, q, e, quote);
    if q >= e {
        lemma_slice_valid(s, m, q);
        lemma_concat_ascii_valid(s.subrange(m, q), seq![0x22u8]);
    } else if s[q] == quote {
        lemma_slice_valid(s, m, q);
        lemma_concat_ascii_valid(s.subrange(m, q), seq![0x22u8]);
        lemma_char_start_after_ascii(s, q);
    } else if s[q] == 0x5Cu8 {
        lemma_slice_valid(s, m, q);
        lemma_char_start_after_ascii(s, q);
        lemma_escape_at_bounds(s, q + 1, e);
        let (q2, esc) = escape_at(s, q + 1, e);
        let rest = string_body(s, q2, e, quote);
        assert(body.1 == esc + rest.1);
        if q + 1 >= e {
            lemma_string_body_valid(s, q2, q2, e, quote);
            assert(s.subrange(q2, q2) + rest.1 =~= rest.1);
            lemma_ascii_valid(esc);
            valid_utf8_concat(esc, rest.1);
        } else {
            let c = s[q + 1];
            if c < 0x80u8 {
                lemma_char_start_after_ascii(s, q + 1);
                if c == 0x75u8 {
                    lemma_unicode_digits_ascii(s, q + 2, e, 4);
                    assert(is_ascii_text(esc));
                } else if c == 0x22u8 || c == 0x5Cu8 || c == 0x2Fu8 || c == 0x62u8 || c == 0x66u8
                    || c == 0x6Eu8 || c == 0x72u8 || c == 0x74u8 {
                    assert(is_ascii_text(esc));
                } else {
                    lemma_escape_byte_ascii(c);
                }
                lemma_string_body_valid(s, q2, q2, e, quote);
                assert(s.subrange(q2, q2) + rest.1 =~= rest.1);
                lemma_ascii_valid(esc);
                valid_utf8_concat(esc, rest.1);
            } else {
                assert(esc =~= seq![c]);
                lemma_string_body_valid(s, q + 1, q + 2, e, quote);
                assert(s.subrange(q + 1, q + 2) =~= seq![c]);
            }
        }
        assert(s.subrange(m, q) + body.1 =~= s.subrange(m, q) + (esc + rest.1));
        valid_utf8_concat(s.subrange(m, q), esc + rest.1);
    } else {
        let b = s[q];
        let rest = string_body(s, q + 1, e, quote);
        if b < 0x80u8 {
            lemma_slice_valid(s, m, q);
            lemma_char_start_after_ascii(s, q);
            lemma_string_body_valid(s, q + 1, q + 1, e, quote);
            assert(s.subrange(q + 1, q + 1) + rest.1 =~= rest.1);
            lemma_escape_byte_ascii(b);
            lemma_ascii_valid(escape_byte(b));
            valid_utf8_concat(escape_byte(b), rest.1);
            valid_utf8_concat(s.subrange(m, q), escape_byte(b) + rest.1);
            assert(s.subrange(m, q) + body.1 =~= s.subrange(m, q) + (escape_byte(b) + rest.1));
        } else {
            lemma_string_body_valid(s, m, q + 1, e, quote);
            assert(escape_byte(b) =~= seq![b]);
            assert(s.subrange(m, q) + body.1 =~= s.subrange(m, q + 1) + rest.1);
        }
    }
}

pub proof fn lemma_number_text_ascii(t: Seq<u8>)
    ensures
        number_text(t) matches Some(x) ==> is_ascii_text(x),
{
    let n = t.len() as int;
    let b = sign_len(t);
    let k = find_exp(t, b);
    let dot = find_dot(t, b, k);
    if b < n && mantissa_ok(t, b, k) && exponent_ok(t, k) {
        lemma_find_exp_bounds(t, b);
        lemma_find_dot_facts(t, b, k);
        lemma_skip_zeros_bounds(t, b, dot);
        let z = skip_zeros(t, b, dot);
        assert(is_ascii_text(sign_text(t, b)));
        assert(is_ascii_text(int_text(t, b, dot))) by {
            if z < dot {
                assert forall|i: int| 0 <= i < int_text(t, b, dot).len() implies #[trigger] int_text(
                    t,
                    b,
                    dot,
                )[i] < 0x80u8 by {
                    assert(int_text(t, b, dot)[i] == t[z + i]);
                }
            }
        }
        assert(is_ascii_text(frac_text(t, dot, k))) by {
            if dot < k {
                assert forall|i: int| 0 <= i < frac_text(t, dot, k).len() implies #[trigger] frac_text(
                    t,
                    dot,
                    k,
                )[i] < 0x80u8 by {
                    if 1 <= i < k - dot {
                        assert(frac_text(t, dot, k)[i] == t[dot + i]);
                    }
                }
            }
        }
        assert(is_ascii_text(exp_text(t, k))) by {
            if k < n {
                let j0 = exp_digits_start(t, k);
                assert forall|i: int| 0 <= i < exp_text(t, k).len() implies #[trigger] exp_text(
                    t,
                    k,
                )[i] < 0x80u8 by {
                    if 1 <= i < n - k {
                        assert(exp_text(t, k)[i] == t[k + i]);
                        if k + i >= j0 {
                            assert(crate::lexer::is_digit(t[k + i]));
                        }
                    }
                }
            }
        }
        let x = number_parts(t, b, k, dot);
        assert forall|i: int| 0 <= i < x.len() implies #[trigger] x[i] < 0x80u8 by {
            let a1 = sign_text(t, b);
            let a2 = int_text(t, b, dot);
            let a3 = frac_text(t, dot, k);
            let a4 = exp_text(t, k);
            if i < a1.len() {
                assert(x[i] == a1[i]);
            } else if i < a1.len() + a2.len() {
                assert(x[i] == a2[i - a1.len()]);
            } else if i < a1.len() + a2.len() + a3.len() {
                assert(x[i] == a3[i - a1.len() - a2.len()]);
            } else {
                assert(x[i] == a4[i - a1.len() - a2.len() - a3.len()]);
            }
        }
    }
}

pub proof fn lemma_word_text_valid(t: Seq<u8>)
    requires
        valid_utf8(t),
    ensures
        valid_utf8(word_text(t)),
        valid_utf8(number_or_word_text(t)),
{
    lemma_quoted_valid(t);
    lemma_ascii_valid(true_text());
    lemma_ascii_valid(false_text());
    lemma_ascii_valid(null_text());
    lemma_number_text_ascii(t);
    if let Some(x) = number_text(t) {
        lemma_ascii_valid(x);
    }
}


// ---------------------------------------------------------------------------
// Values, objects and arrays
// ---------------------------------------------------------------------------

pub proof fn lemma_value_search_char_start(s: Seq<u8>, p: int, e: int)
    requires
        window_ok(s, e),
        char_start(s, p),
        p <= e,
    ensures
        char_start(s, value_search(s, p, e)),
    decreases e - p,
{
    lemma_skip_trivia_char_start(s, p, e);
    lemma_skip_trivia_bounds(s, p, e);
    let p1 = skip_trivia_from(s, p, e);
    if p1 < e && !(is_value_start_byte(s[p1]) || s[p1] == 0x2Cu8 || s[p1] == 0x5Du8 || s[p1]
        == 0x7Du8) {
        lemma_char_start_after_ascii(s, p1);
        lemma_value_search_char_start(s, p1 + 1, e);
    }
}

pub proof fn lemma_key_at_valid(s: Seq<u8>, p: int, e: int)
    requires
        window_ok(s, e),
        char_start(s, p),
        0 <= p < e,
    ensures
        char_start(s, key_at(s, p, e).0),
        valid_utf8(key_at(s, p, e).1),
{
    if s[p] == 0x22u8 || s[p] == 0x27u8 {
        lemma_char_start_after_ascii(s, p);
        lemma_string_body_valid(s, p + 1, p + 1, e, s[p]);
        let body = string_body(s, p + 1, e, s[p]);
        assert(s.subrange(p + 1, p + 1) + body.1 =~= body.1);
        lemma_ascii_valid(seq![0x22u8]);
        valid_utf8_concat(seq![0x22u8], body.1);
    } else {
        lemma_token_end_char_start(s, p, e);
        crate::lexer::lemma_token_end_bounds(s, p, e);
        lemma_slice_valid(s, p, token_end(s, p, e));
        lemma_quoted_valid(s.subrange(p, token_end(s, p, e)));
    }
}

/// What a value, object member or array item writes is valid UTF-8, and the
/// cursor stops where a character starts.
pub proof fn lemma_value_at_valid(s: Seq<u8>, p: int, e: int, d: int)
    requires
        window_ok(s, e),
        char_start(s, p),
        p <= e,
    ensures
        value_at(s, p, e, d) matches Ok((q, _found, t)) ==> char_start(s, q) && valid_utf8(t),
    decreases MAX_DEPTH + 1 - d, 0int, 0int,
{
    lemma_value_search_char_start(s, p, e);
    lemma_value_search_bounds(s, p, e);
    let p1 = value_search(s, p, e);
    if 0 <= p1 < e {
        let b = s[p1];
        if b == 0x7Bu8 || b == 0x5Bu8 {
            if d < MAX_DEPTH {
                lemma_char_start_after_ascii(s, p1);
                if b == 0x7Bu8 {
                    lemma_members_valid(s, p1 + 1, e, d + 1, false);
                    if let Ok((q, t)) = members(s, p1 + 1, e, d + 1, false) {
                        lemma_wrap_valid(0x7Bu8, t, 0x7Du8);
                    }
                } else {
                    lemma_elements_valid(s, p1 + 1, e, d + 1, false);
                    if let Ok((q, t)) = elements(s, p1 + 1, e, d + 1, false) {
                        lemma_wrap_valid(0x5Bu8, t, 0x5Du8);
                    }
                }
            }
        } else if b == 0x22u8 || b == 0x27u8 {
            lemma_char_start_after_ascii(s, p1);
            lemma_string_body_valid(s, p1 + 1, p1 + 1, e, b);
            let body = string_body(s, p1 + 1, e, b);
            assert(s.subrange(p1 + 1, p1 + 1) + body.1 =~= body.1);
            lemma_ascii_valid(seq![0x22u8]);
            valid_utf8_concat(seq![0x22u8], body.1);
        } else {
            lemma_token_end_char_start(s, p1, e);
            crate::lexer::lemma_token_end_bounds(s, p1, e);
            let q = token_end(s, p1, e);
            lemma_slice_valid(s, p1, q);
            lemma_word_text_valid(s.subrange(p1, q));
        }
    }
}

pub proof fn lemma_wrap_valid(open: u8, t: Seq<u8>, close: u8)
    requires
        open < 0x80u8,
        close < 0x80u8,
        valid_utf8(t),
    ensures
        valid_utf8(seq![open] + t + seq![close]),
{
    lemma_ascii_valid(seq![open]);
    valid_utf8_concat(seq![open], t);
    lemma_concat_ascii_valid(seq![open] + t, seq![close]);
}

pub proof fn lemma_members_valid(s: Seq<u8>, p: int, e: int, d: int, has: bool)
    requires
        window_ok(s, e),
        char_start(s, p),
        p <= e,
    ensures
        members(s, p, e, d, has) matches Ok((q, t)) ==> char_start(s, q) && valid_utf8(t),
    decreases MAX_DEPTH + 1 - d, 1int, e - p,
{
    lemma_skip_trivia_char_start(s, p, e);
    lemma_skip_trivia_bounds(s, p, e);
    let p1 = skip_trivia_from(s, p, e);
    if p1 < e && s[p1] == 0x7Du8 {
        lemma_char_start_after_ascii(s, p1);
        lemma_ascii_valid(Seq::<u8>::empty());
    } else if p1 >= e || s[p1] == 0x5Du8 {
        lemma_ascii_valid(Seq::<u8>::empty());
    } else if !can_start_key_byte(s[p1]) {
        lemma_char_start_after_ascii(s, p1);
        lemma_members_valid(s, p1 + 1, e, d, has);
    } else {
        lemma_member_at_valid(s, p1, e, d, has);
        if let Ok((p5, entry)) = member_at(s, p1, e, d, has) {
            if p < p5 <= e {
                lemma_members_valid(s, p5, e, d, true);
                if let Ok((q, rest)) = members(s, p5, e, d, true) {
                    valid_utf8_concat(entry, rest);
                }
            }
        }
    }
}

pub proof fn lemma_member_at_valid(s: Seq<u8>, p: int, e: int, d: int, has: bool)
    requires
        window_ok(s, e),
        char_start(s, p),
        0 <= p < e,
    ensures
        member_at(s, p, e, d, has) matches Ok((q, t)) ==> char_start(s, q) && valid_utf8(t),
    decreases MAX_DEPTH + 1 - d, 0int, 1int,
{
    lemma_key_at_valid(s, p, e);
    let (p2, key) = key_at(s, p, e);
    crate::parser::lemma_key_at_bounds(s, p, e);
    lemma_skip_trivia_char_start(s, p2, e);
    lemma_skip_trivia_bounds(s, p2, e);
    let p3 = skip_trivia_from(s, p2, e);
    let p4 = if p3 < e && s[p3] == 0x3Au8 {
        lemma_char_start_after_ascii(s, p3);
        p3 + 1
    } else {
        p3
    };
    lemma_value_at_valid(s, p4, e, d);
    if let Ok((p5, found, v)) = value_at(s, p4, e, d) {
        let sep: Seq<u8> = if has {
            seq![0x2Cu8]
        } else {
            seq![]
        };
        lemma_ascii_valid(sep);
        valid_utf8_concat(sep, key);
        lemma_concat_ascii_valid(sep + key, seq![0x3Au8]);
        let tail = if found {
            v
        } else {
            null_text()
        };
        lemma_ascii_valid(null_text());
        valid_utf8_concat(sep + key + seq![0x3Au8], tail);
    }
}

pub proof fn lemma_elements_valid(s: Seq<u8>, p: int, e: int, d: int, has: bool)
    requires
        window_ok(s, e),
        char_start(s, p),
        p <= e,
    ensures
        elements(s, p, e, d, has) matches Ok((q, t)) ==> char_start(s, q) && valid_utf8(t),
    decreases MAX_DEPTH + 1 - d, 1int, e - p,
{
    lemma_skip_trivia_char_start(s, p, e);
    lemma_skip_trivia_bounds(s, p, e);
    let p1 = skip_trivia_from(s, p, e);
    if p1 < e && s[p1] == 0x5Du8 {
        lemma_char_start_after_ascii(s, p1);
        lemma_ascii_valid(Seq::<u8>::empty());
    } else if p1 >= e || s[p1] == 0x7Du8 {
        lemma_ascii_valid(Seq::<u8>::empty());
    } else if !is_value_start_byte(s[p1]) {
        lemma_char_start_after_ascii(s, p1);
        lemma_elements_valid(s, p1 + 1, e, d, has);
    } else {
        lemma_value_at_valid(s, p1, e, d);
        if let Ok((p2, _found, v)) = value_at(s, p1, e, d) {
            let sep: Seq<u8> = if has {
                seq![0x2Cu8]
            } else {
                seq![]
            };
            lemma_ascii_valid(sep);
            valid_utf8_concat(sep, v);
            if p < p2 <= e {
                lemma_elements_valid(s, p2, e, d, true);
                if let Ok((q, rest)) = elements(s, p2, e, d, true) {
                    valid_utf8_concat(sep + v, rest);
                }
            }
        }
    }
}

/// The repair of a valid window, from a cursor where a character starts,
/// writes valid UTF-8.
pub proof fn lemma_repair_window_valid(s: Seq<u8>, p: int, e: int)
    requires
        window_ok(s, e),
        char_start(s, p),
        p <= e,
    ensures
        value_at(s, structural_start(s, p, e), e, 0) matches Ok((_q, found, t)) ==> valid_utf8(
            if found {
                t
            } else {
                null_text()
            },
        ),
{
    lemma_structural_start_char_start(s, p, e);
    crate::lexer::lemma_skip_trivia_bounds(s, p, e);
    let p1 = skip_trivia_from(s, p, e);
    if p1 < e {
        crate::lexer::lemma_scan_structural_bounds(s, p1, p1, e, None);
    }
    lemma_value_at_valid(s, structural_start(s, p, e), e, 0);
    lemma_ascii_valid(null_text());
}

/// The repaired text of valid UTF-8 is valid UTF-8.
pub proof fn lemma_repair_text_valid(input: Seq<u8>)
    requires
        valid_utf8(input),
    ensures
        repair_text(input) matches Ok(t) ==> valid_utf8(t),
{
    let s = strip_bom(input);
    lemma_strip_bom_valid(input);
    lemma_fences_char_start(s);
    crate::lexer::lemma_fence_bounds(s);
    lemma_repair_window_valid(s, fence_start(s), fence_end(s));
}

} // verus!
