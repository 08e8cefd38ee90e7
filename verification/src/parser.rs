//! Bounded recursive-descent repair: reads the lexer's window and writes one
//! compact JSON value.
use vstd::prelude::*;
use vstd::utf8::{valid_utf8, decode_utf8, encode_utf8, encode_utf8_valid_utf8, decode_utf8_encode_utf8};
use crate::encoding::{window_ok, char_start, lemma_repair_window_valid, lemma_repair_text_valid, lemma_strip_bom_valid, lemma_fences_char_start};
use crate::lexer::{
    is_alpha, is_digit, is_hex, lemma_skip_trivia_bounds, skip_trivia_from, structural_start,
    strip_bom, fence_start, fence_end, token_end, peek_at, SLASH, Lexer, LexerState,
    lemma_skip_trivia_fixed, ends_token, lemma_token_end_bounds, is_ascii_hexdigit, is_ascii_alphabetic, is_ascii_digit, BACKSLASH, COLON, COMMA, CR, DOT,
    DQUOTE, LBRACE, LBRACKET, LF, MINUS, PLUS, RBRACE, RBRACKET, SQUOTE, TAB,
};

verus! {

/// Maximum number of simultaneously open objects and arrays.
pub const MAX_DEPTH: usize = 128;

/// More than `MAX_DEPTH` objects and arrays would be open at once.
#[derive(Debug, Clone, Copy, PartialEq, Eq, Structural)]
pub struct DepthLimitExceeded;

/// Why a repair is refused.
#[derive(Debug, Clone, Copy, PartialEq, Eq, Structural)]
pub enum RepairError {
    /// More than `MAX_DEPTH` objects and arrays would be open at once.
    Depth(DepthLimitExceeded),
    /// An object value is a quoted string whose closing quote is followed at
    /// once by a bare word and a quote of the same kind, as in
    /// `{"command": "say "hello" now"}`: its inner quotes are unescaped, and
    /// where the value ends cannot be told.
    AmbiguousQuote,
}

pub const ZERO: u8 = 0x30;
pub const DOLLAR: u8 = 0x24;
pub const UNDERSCORE: u8 = 0x5F;
pub const LOWER_B: u8 = 0x62;
pub const LOWER_E: u8 = 0x65;
pub const UPPER_E: u8 = 0x45;
pub const LOWER_F: u8 = 0x66;
pub const LOWER_N: u8 = 0x6E;
pub const LOWER_R: u8 = 0x72;
pub const LOWER_T: u8 = 0x74;
pub const LOWER_U: u8 = 0x75;

// ---------------------------------------------------------------------------
// Byte classes of the grammar
// ---------------------------------------------------------------------------

pub open spec fn is_identifier_start_byte(b: u8) -> bool {
    is_alpha(b) || b >= 0x80u8 || b == UNDERSCORE || b == DOLLAR
}

pub open spec fn is_value_start_byte(b: u8) -> bool {
    ||| b == LBRACE || b == LBRACKET || b == DQUOTE || b == SQUOTE
    ||| b == PLUS || b == MINUS || b == DOT || is_digit(b)
    ||| is_identifier_start_byte(b)
}

pub open spec fn is_number_start_byte(b: u8) -> bool {
    b == PLUS || b == MINUS || b == DOT || is_digit(b)
}

pub open spec fn can_start_key_byte(b: u8) -> bool {
    b == DQUOTE || b == SQUOTE || b == MINUS || is_digit(b) || is_identifier_start_byte(b)
}

fn is_identifier_start(byte: u8) -> (r: bool)
    ensures
        r == is_identifier_start_byte(byte),
{
    is_ascii_alphabetic(byte) || byte >= 0x80u8 || byte == UNDERSCORE || byte == DOLLAR
}

fn is_value_start(byte: u8) -> (r: bool)
    ensures
        r == is_value_start_byte(byte),
{
    byte == LBRACE || byte == LBRACKET || byte == DQUOTE || byte == SQUOTE || byte == PLUS || byte
        == MINUS || byte == DOT || is_ascii_digit(byte) || is_identifier_start(byte)
}

// ---------------------------------------------------------------------------
// String escaping
// ---------------------------------------------------------------------------

/// Lowercase hexadecimal digit of `n < 16`.
pub open spec fn hex_char(n: u8) -> u8 {
    if n < 10 {
        (ZERO + n) as u8
    } else {
        (0x61u8 + n - 10) as u8
    }
}

/// How one byte is written inside a JSON string: quote and backslash are
/// escaped, line feed, carriage return and tab get their short escapes, the
/// other control bytes a `\u00XX` escape; every other byte is kept.
pub open spec fn escape_byte(b: u8) -> Seq<u8> {
    if b == DQUOTE {
        seq![BACKSLASH, DQUOTE]
    } else if b == BACKSLASH {
        seq![BACKSLASH, BACKSLASH]
    } else if b == LF {
        seq![BACKSLASH, LOWER_N]
    } else if b == CR {
        seq![BACKSLASH, LOWER_R]
    } else if b == TAB {
        seq![BACKSLASH, LOWER_T]
    } else if b < 0x20u8 {
        seq![BACKSLASH, LOWER_U, ZERO, ZERO, hex_char(b / 16), hex_char(b % 16)]
    } else {
        seq![b]
    }
}

/// Every byte of `t` escaped, in order.
pub open spec fn escape_bytes(t: Seq<u8>) -> Seq<u8>
    decreases t.len(),
{
    if t.len() == 0 {
        seq![]
    } else {
        escape_bytes(t.drop_last()) + escape_byte(t.last())
    }
}

/// `t` written as a JSON string.
pub open spec fn quoted(t: Seq<u8>) -> Seq<u8> {
    seq![DQUOTE] + escape_bytes(t) + seq![DQUOTE]
}

fn hex_digit(n: u8) -> (r: u8)
    requires
        n < 16,
    ensures
        r == hex_char(n),
{
    if n < 10 {
        ZERO + n
    } else {
        0x61u8 + n - 10
    }
}

fn push_all(output: &mut Vec<u8>, bytes: &[u8], from: usize, to: usize)
    requires
        from <= to <= bytes@.len(),
    ensures
        final(output)@ == old(output)@ + bytes@.subrange(from as int, to as int),
{
    let ghost start = output@;
    let mut i = from;
    while i < to
        invariant
            from <= i <= to <= bytes@.len(),
            output@ == start + bytes@.subrange(from as int, i as int),
        decreases to - i,
    {
        output.push(bytes[i]);
        i += 1;
        assert(output@ =~= start + bytes@.subrange(from as int, i as int));
    }
}

// The same escaping rules apply to quoted input and repaired bare tokens.
fn push_string_byte(output: &mut Vec<u8>, byte: u8)
    ensures
        final(output)@ == old(output)@ + escape_byte(byte),
{
    let ghost start = output@;
    if byte == DQUOTE {
        output.push(BACKSLASH);
        output.push(DQUOTE);
    } else if byte == BACKSLASH {
        output.push(BACKSLASH);
        output.push(BACKSLASH);
    } else if byte == LF {
        output.push(BACKSLASH);
        output.push(LOWER_N);
    } else if byte == CR {
        output.push(BACKSLASH);
        output.push(LOWER_R);
    } else if byte == TAB {
        output.push(BACKSLASH);
        output.push(LOWER_T);
    } else if byte < 0x20u8 {
        assert(byte >> 4u8 == byte / 16) by (bit_vector);
        assert(byte & 0xfu8 == byte % 16) by (bit_vector);
        output.push(BACKSLASH);
        output.push(LOWER_U);
        output.push(ZERO);
        output.push(ZERO);
        output.push(hex_digit(byte >> 4u8));
        output.push(hex_digit(byte & 0xfu8));
    } else {
        output.push(byte);
    }
    assert(output@ =~= start + escape_byte(byte));
}

fn push_quoted_bytes(output: &mut Vec<u8>, bytes: &[u8])
    ensures
        final(output)@ == old(output)@ + quoted(bytes@),
{
    let ghost start = output@;
    output.push(DQUOTE);
    let mut i: usize = 0;
    while i < bytes.len()
        invariant
            0 <= i <= bytes@.len(),
            output@ == start + seq![DQUOTE] + escape_bytes(bytes@.take(i as int)),
        decreases bytes.len() - i,
    {
        push_string_byte(output, bytes[i]);
        assert(bytes@.take(i + 1).drop_last() =~= bytes@.take(i as int));
        i += 1;
    }
    assert(bytes@.take(bytes@.len() as int) =~= bytes@);
    output.push(DQUOTE);
    assert(output@ =~= start + quoted(bytes@));
}


// ---------------------------------------------------------------------------
// Numbers
// ---------------------------------------------------------------------------

pub open spec fn is_exp_marker(b: u8) -> bool {
    b == LOWER_E || b == UPPER_E
}

/// Length of the sign that a token starts with (0 or 1).
pub open spec fn sign_len(t: Seq<u8>) -> int {
    if t.len() > 0 && (t[0] == MINUS || t[0] == PLUS) {
        1
    } else {
        0
    }
}

/// The first index at or after `i` whose byte is an exponent marker, or the
/// length of `t`.
pub open spec fn find_exp(t: Seq<u8>, i: int) -> int
    decreases t.len() - i,
{
    if i < 0 || i >= t.len() {
        t.len() as int
    } else if is_exp_marker(t[i]) {
        i
    } else {
        find_exp(t, i + 1)
    }
}

/// The first index in `i..k` whose byte is `.`, or `k`.
pub open spec fn find_dot(t: Seq<u8>, i: int, k: int) -> int
    decreases k - i,
{
    if i < 0 || i >= k {
        k
    } else if t[i] == DOT {
        i
    } else {
        find_dot(t, i + 1, k)
    }
}

/// The first index in `i..k` whose byte is not `0`, or `k`.
pub open spec fn skip_zeros(t: Seq<u8>, i: int, k: int) -> int
    decreases k - i,
{
    if i < 0 || i >= k {
        k
    } else if t[i] != ZERO {
        i
    } else {
        skip_zeros(t, i + 1, k)
    }
}

/// The mantissa `t[b..k]` is nonempty and made of digits with at most one `.`.
pub open spec fn mantissa_ok(t: Seq<u8>, b: int, k: int) -> bool {
    &&& b < k
    &&& forall|i: int| b <= i < k ==> is_digit(#[trigger] t[i]) || t[i] == DOT
    &&& forall|i: int, j: int| b <= i < j < k && #[trigger] t[i] == DOT ==> #[trigger] t[j] != DOT
}

/// Where the digits of the exponent that follows the marker at `k` start.
pub open spec fn exp_digits_start(t: Seq<u8>, k: int) -> int {
    if k + 1 < t.len() && (t[k + 1] == PLUS || t[k + 1] == MINUS) {
        k + 2
    } else {
        k + 1
    }
}

/// The exponent after the marker at `k`, if there is one, is an optional
/// sign followed by digits only.
pub open spec fn exponent_ok(t: Seq<u8>, k: int) -> bool {
    k < t.len() ==> forall|i: int| exp_digits_start(t, k) <= i < t.len() ==> is_digit(#[trigger] t[i])
}

/// Normal form of a token that reads as a number, or `None` when it does
/// not. A number is an optional sign, a mantissa of digits with at most one
/// `.`, and an optional exponent (`e` or `E`, an optional sign, digits). A
/// `+` sign and redundant leading zeros are dropped, an empty integer part
/// becomes `0`, a `.` with no fraction gets `0`, the marker is written `e`,
/// and an exponent with no digits gets `0`. A lone sign becomes `0`.
pub open spec fn number_text(t: Seq<u8>) -> Option<Seq<u8>> {
    let n = t.len() as int;
    let b = sign_len(t);
    let k = find_exp(t, b);
    let dot = find_dot(t, b, k);
    if b == n {
        Some(seq![ZERO])
    } else if !mantissa_ok(t, b, k) || !exponent_ok(t, k) {
        None
    } else {
        Some(number_parts(t, b, k, dot))
    }
}

/// The sign of the normal form: kept only when it is `-`.
pub open spec fn sign_text(t: Seq<u8>, b: int) -> Seq<u8> {
    if b == 1 && t[0] == MINUS {
        seq![MINUS]
    } else {
        seq![]
    }
}

/// The integer digits `t[b..dot]` without redundant leading zeros (`0` when
/// nothing is left).
pub open spec fn int_text(t: Seq<u8>, b: int, dot: int) -> Seq<u8> {
    let z = skip_zeros(t, b, dot);
    if z < dot {
        t.subrange(z, dot)
    } else {
        seq![ZERO]
    }
}

/// The fraction after the dot at `dot`, up to `k` (`0` when empty); nothing
/// when there is no dot.
pub open spec fn frac_text(t: Seq<u8>, dot: int, k: int) -> Seq<u8> {
    if dot < k {
        seq![DOT] + t.subrange(dot + 1, k) + if dot + 1 == k {
            seq![ZERO]
        } else {
            seq![]
        }
    } else {
        seq![]
    }
}

/// The exponent after the marker at `k`, written with `e` and completed
/// with `0` when its digits are missing; nothing when there is no marker.
pub open spec fn exp_text(t: Seq<u8>, k: int) -> Seq<u8> {
    let n = t.len() as int;
    if k < n {
        seq![LOWER_E] + t.subrange(k + 1, n) + if k + 1 == n || t[n - 1] == PLUS || t[n - 1]
            == MINUS {
            seq![ZERO]
        } else {
            seq![]
        }
    } else {
        seq![]
    }
}

/// The normal form of a number token whose sign ends at `b`, whose dot is at
/// `dot` (or `k` when it has none) and whose exponent marker is at `k` (or
/// its length when it has none).
pub open spec fn number_parts(t: Seq<u8>, b: int, k: int, dot: int) -> Seq<u8> {
    sign_text(t, b) + int_text(t, b, dot) + frac_text(t, dot, k) + exp_text(t, k)
}

pub proof fn lemma_find_exp_bounds(t: Seq<u8>, i: int)
    requires
        0 <= i <= t.len(),
    ensures
        i <= find_exp(t, i) <= t.len(),
    decreases t.len() - i,
{
    if i < t.len() && !is_exp_marker(t[i]) {
        lemma_find_exp_bounds(t, i + 1);
    }
}

pub proof fn lemma_find_dot_facts(t: Seq<u8>, i: int, k: int)
    requires
        0 <= i <= k,
    ensures
        i <= find_dot(t, i, k) <= k,
        find_dot(t, i, k) < k ==> t[find_dot(t, i, k)] == DOT,
        forall|j: int| i <= j < find_dot(t, i, k) ==> #[trigger] t[j] != DOT,
    decreases k - i,
{
    if i < k && t[i] != DOT {
        lemma_find_dot_facts(t, i + 1, k);
    }
}

pub proof fn lemma_skip_zeros_bounds(t: Seq<u8>, i: int, k: int)
    requires
        0 <= i <= k,
    ensures
        i <= skip_zeros(t, i, k) <= k,
    decreases k - i,
{
    if i < k && t[i] == ZERO {
        lemma_skip_zeros_bounds(t, i + 1, k);
    }
}

pub proof fn lemma_mantissa_ok_by_dot(t: Seq<u8>, b: int, k: int)
    requires
        0 <= b <= k <= t.len(),
    ensures
        mantissa_ok(t, b, k) <==> {
            &&& b < k
            &&& forall|i: int| b <= i < k ==> is_digit(#[trigger] t[i]) || t[i] == DOT
            &&& forall|i: int| find_dot(t, b, k) < i < k ==> #[trigger] t[i] != DOT
        },
{
    lemma_find_dot_facts(t, b, k);
    let dot = find_dot(t, b, k);
    if mantissa_ok(t, b, k) {
        assert forall|i: int| dot < i < k implies #[trigger] t[i] != DOT by {
            assert(t[dot] == DOT);
        }
    }
    if b < k && (forall|i: int| b <= i < k ==> is_digit(#[trigger] t[i]) || t[i] == DOT) && (
    forall|i: int| dot < i < k ==> #[trigger] t[i] != DOT) {
        assert forall|i: int, j: int| b <= i < j < k && #[trigger] t[i] == DOT implies #[trigger] t[j]
            != DOT by {
            if i < dot {
                assert(t[i] != DOT);
            }
        }
    }
}

fn find_exp_index(token: &[u8], from: usize) -> (r: usize)
    requires
        from <= token@.len(),
    ensures
        r == find_exp(token@, from as int),
        from <= r <= token@.len(),
{
    let mut k = from;
    while k < token.len() && !(token[k] == LOWER_E || token[k] == UPPER_E)
        invariant
            from <= k <= token@.len(),
            find_exp(token@, k as int) == find_exp(token@, from as int),
        decreases token.len() - k,
    {
        k += 1;
    }
    k
}

fn find_dot_index(token: &[u8], from: usize, to: usize) -> (r: usize)
    requires
        from <= to <= token@.len(),
    ensures
        r == find_dot(token@, from as int, to as int),
        from <= r <= to,
{
    let mut i = from;
    while i < to && token[i] != DOT
        invariant
            from <= i <= to <= token@.len(),
            find_dot(token@, i as int, to as int) == find_dot(token@, from as int, to as int),
        decreases to - i,
    {
        i += 1;
    }
    i
}

/// Digits and dots only in `from..to`, and no dot after `dot`.
fn mantissa_valid(token: &[u8], from: usize, to: usize, dot: usize) -> (r: bool)
    requires
        from <= to <= token@.len(),
        dot == find_dot(token@, from as int, to as int),
    ensures
        r == mantissa_ok(token@, from as int, to as int),
{
    proof {
        lemma_mantissa_ok_by_dot(token@, from as int, to as int);
        lemma_find_dot_facts(token@, from as int, to as int);
    }
    if from == to {
        return false;
    }
    let mut i = from;
    while i < to
        invariant
            from <= i <= to <= token@.len(),
            dot == find_dot(token@, from as int, to as int),
            forall|j: int| from <= j < i ==> is_digit(#[trigger] token@[j]) || token@[j] == DOT,
            forall|j: int| dot < j < i ==> #[trigger] token@[j] != DOT,
        decreases to - i,
    {
        let c = token[i];
        if !(is_ascii_digit(c) || c == DOT) || (c == DOT && i > dot) {
            assert(!(is_digit(token@[i as int]) || token@[i as int] == DOT) || (dot < i
                && token@[i as int] == DOT));
            proof {
                lemma_mantissa_ok_by_dot(token@, from as int, to as int);
            }
            return false;
        }
        i += 1;
    }
    true
}

fn exponent_valid(token: &[u8], k: usize) -> (r: bool)
    requires
        k <= token@.len(),
    ensures
        r == exponent_ok(token@, k as int),
{
    let n = token.len();
    if k == n {
        return true;
    }
    let mut j: usize = k + 1;
    if j < n && (token[j] == PLUS || token[j] == MINUS) {
        j += 1;
    }
    let j0 = j;
    while j < n
        invariant
            j0 <= j <= n == token@.len(),
            k < n,
            j0 == exp_digits_start(token@, k as int),
            forall|q: int| j0 <= q < j ==> is_digit(#[trigger] token@[q]),
        decreases n - j,
    {
        if !is_ascii_digit(token[j]) {
            return false;
        }
        j += 1;
    }
    true
}

// Validate before writing so ambiguous tokens can be quoted without rollback.
// Normalize directly into the output buffer, without allocating per number.
fn push_number(output: &mut Vec<u8>, token: &[u8]) -> (r: bool)
    ensures
        match number_text(token@) {
            Some(text) => r && final(output)@ == old(output)@ + text,
            None => !r && final(output)@ == old(output)@,
        },
{
    let n = token.len();
    let b: usize = if n > 0 && (token[0] == MINUS || token[0] == PLUS) {
        1
    } else {
        0
    };
    if b == n {
        let ghost start = output@;
        output.push(ZERO);
        assert(output@ =~= start + seq![ZERO]);
        return true;
    }
    let k = find_exp_index(token, b);
    let dot = find_dot_index(token, b, k);
    if !mantissa_valid(token, b, k, dot) || !exponent_valid(token, k) {
        return false;
    }
    push_number_parts(output, token, b, k, dot);
    true
}

fn push_number_parts(output: &mut Vec<u8>, token: &[u8], b: usize, k: usize, dot: usize)
    requires
        b == sign_len(token@),
        b <= dot <= k <= token@.len(),
    ensures
        final(output)@ == old(output)@ + number_parts(token@, b as int, k as int, dot as int),
{
    let ghost start = output@;
    if b == 1 && token[0] == MINUS {
        output.push(MINUS);
    }
    assert(output@ =~= start + sign_text(token@, b as int));
    push_int_part(output, token, b, dot);
    push_frac_part(output, token, dot, k);
    push_exp_part(output, token, k);
    assert(output@ =~= start + number_parts(token@, b as int, k as int, dot as int));
}

fn push_int_part(output: &mut Vec<u8>, token: &[u8], b: usize, dot: usize)
    requires
        b <= dot <= token@.len(),
    ensures
        final(output)@ == old(output)@ + int_text(token@, b as int, dot as int),
{
    let ghost start = output@;
    let mut z = b;
    while z < dot && token[z] == ZERO
        invariant
            b <= z <= dot <= token@.len(),
            skip_zeros(token@, z as int, dot as int) == skip_zeros(token@, b as int, dot as int),
        decreases dot - z,
    {
        z += 1;
    }
    if z < dot {
        push_all(output, token, z, dot);
    } else {
        output.push(ZERO);
        assert(output@ =~= start + seq![ZERO]);
    }
}

fn push_frac_part(output: &mut Vec<u8>, token: &[u8], dot: usize, k: usize)
    requires
        dot <= k <= token@.len(),
    ensures
        final(output)@ == old(output)@ + frac_text(token@, dot as int, k as int),
{
    let ghost start = output@;
    if dot < k {
        output.push(DOT);
        push_all(output, token, dot + 1, k);
        if dot + 1 == k {
            output.push(ZERO);
        }
    }
    assert(output@ =~= start + frac_text(token@, dot as int, k as int));
}

fn push_exp_part(output: &mut Vec<u8>, token: &[u8], k: usize)
    requires
        k <= token@.len(),
    ensures
        final(output)@ == old(output)@ + exp_text(token@, k as int),
{
    let ghost start = output@;
    let n = token.len();
    if k < n {
        output.push(LOWER_E);
        push_all(output, token, k + 1, n);
        if k + 1 == n || token[n - 1] == PLUS || token[n - 1] == MINUS {
            output.push(ZERO);
        }
    }
    assert(output@ =~= start + exp_text(token@, k as int));
}


// ---------------------------------------------------------------------------
// Literals
// ---------------------------------------------------------------------------

pub open spec fn true_text() -> Seq<u8> {
    seq![0x74u8, 0x72u8, 0x75u8, 0x65u8]
}

pub open spec fn false_text() -> Seq<u8> {
    seq![0x66u8, 0x61u8, 0x6Cu8, 0x73u8, 0x65u8]
}

pub open spec fn null_text() -> Seq<u8> {
    seq![0x6Eu8, 0x75u8, 0x6Cu8, 0x6Cu8]
}

/// A bare word in value position: `true`/`True`, `false`/`False` and
/// `null`/`Null`/`None`/`none` become JSON literals; any other word becomes
/// a string.
pub open spec fn word_text(t: Seq<u8>) -> Seq<u8> {
    if t == true_text() || t == seq![0x54u8, 0x72u8, 0x75u8, 0x65u8] {
        true_text()
    } else if t == false_text() || t == seq![0x46u8, 0x61u8, 0x6Cu8, 0x73u8, 0x65u8] {
        false_text()
    } else if t == null_text() || t == seq![0x4Eu8, 0x75u8, 0x6Cu8, 0x6Cu8] || t == seq![
        0x4Eu8,
        0x6Fu8,
        0x6Eu8,
        0x65u8,
    ] || t == seq![0x6Eu8, 0x6Fu8, 0x6Eu8, 0x65u8] {
        null_text()
    } else {
        quoted(t)
    }
}

/// A bare token in value position that starts like a number: its normal
/// form when it is one, else the token as a string.
pub open spec fn number_or_word_text(t: Seq<u8>) -> Seq<u8> {
    match number_text(t) {
        Some(text) => text,
        None => quoted(t),
    }
}

fn is_word4(t: &[u8], a: u8, b: u8, c: u8, d: u8) -> (r: bool)
    ensures
        r == (t@ == seq![a, b, c, d]),
{
    let r = t.len() == 4 && t[0] == a && t[1] == b && t[2] == c && t[3] == d;
    proof {
        if t@.len() == 4 {
            if t@ == seq![a, b, c, d] {
                assert(t@[0] == a && t@[1] == b && t@[2] == c && t@[3] == d);
            }
            if r {
                assert(t@ =~= seq![a, b, c, d]);
            }
        }
    }
    r
}

fn is_word5(t: &[u8], a: u8, b: u8, c: u8, d: u8, e: u8) -> (r: bool)
    ensures
        r == (t@ == seq![a, b, c, d, e]),
{
    let r = t.len() == 5 && t[0] == a && t[1] == b && t[2] == c && t[3] == d && t[4] == e;
    proof {
        if t@.len() == 5 {
            if t@ == seq![a, b, c, d, e] {
                assert(t@[0] == a && t@[1] == b && t@[2] == c && t@[3] == d && t@[4] == e);
            }
            if r {
                assert(t@ =~= seq![a, b, c, d, e]);
            }
        }
    }
    r
}

fn push_true(output: &mut Vec<u8>)
    ensures
        final(output)@ == old(output)@ + true_text(),
{
    let ghost start = output@;
    output.push(0x74u8);
    output.push(0x72u8);
    output.push(0x75u8);
    output.push(0x65u8);
    assert(output@ =~= start + true_text());
}

fn push_false(output: &mut Vec<u8>)
    ensures
        final(output)@ == old(output)@ + false_text(),
{
    let ghost start = output@;
    output.push(0x66u8);
    output.push(0x61u8);
    output.push(0x6Cu8);
    output.push(0x73u8);
    output.push(0x65u8);
    assert(output@ =~= start + false_text());
}

fn push_null(output: &mut Vec<u8>)
    ensures
        final(output)@ == old(output)@ + null_text(),
{
    let ghost start = output@;
    output.push(0x6Eu8);
    output.push(0x75u8);
    output.push(0x6Cu8);
    output.push(0x6Cu8);
    assert(output@ =~= start + null_text());
}

fn push_word(output: &mut Vec<u8>, token: &[u8])
    ensures
        final(output)@ == old(output)@ + word_text(token@),
{
    if is_word4(token, 0x74u8, 0x72u8, 0x75u8, 0x65u8) || is_word4(
        token,
        0x54u8,
        0x72u8,
        0x75u8,
        0x65u8,
    ) {
        push_true(output);
    } else if is_word5(token, 0x66u8, 0x61u8, 0x6Cu8, 0x73u8, 0x65u8) || is_word5(
        token,
        0x46u8,
        0x61u8,
        0x6Cu8,
        0x73u8,
        0x65u8,
    ) {
        push_false(output);
    } else if is_word4(token, 0x6Eu8, 0x75u8, 0x6Cu8, 0x6Cu8) || is_word4(
        token,
        0x4Eu8,
        0x75u8,
        0x6Cu8,
        0x6Cu8,
    ) || is_word4(token, 0x4Eu8, 0x6Fu8, 0x6Eu8, 0x65u8) || is_word4(
        token,
        0x6Eu8,
        0x6Fu8,
        0x6Eu8,
        0x65u8,
    ) {
        push_null(output);
    } else {
        push_quoted_bytes(output, token);
    }
}


// ---------------------------------------------------------------------------
// The repair, as a function of the lexer's window
// ---------------------------------------------------------------------------

/// Where a value may start: trivia and bytes that start nothing are
/// skipped, up to a value start, a separator or a closing delimiter.
pub open spec fn value_search(s: Seq<u8>, p: int, e: int) -> int
    decreases e - p,
{
    let p1 = skip_trivia_from(s, p, e);
    if p1 < e && !(is_value_start_byte(s[p1]) || s[p1] == COMMA || s[p1] == RBRACKET || s[p1]
        == RBRACE) {
        proof {
            lemma_skip_trivia_bounds(s, p, e);
        }
        value_search(s, p1 + 1, e)
    } else {
        p1
    }
}

/// Searching for a value from after the trivia finds the same place.
pub proof fn lemma_value_search_skip(s: Seq<u8>, p: int, e: int)
    ensures
        value_search(s, skip_trivia_from(s, p, e), e) == value_search(s, p, e),
{
    lemma_skip_trivia_fixed(s, p, e);
}

/// Searching again from where the search stopped stops there.
pub proof fn lemma_value_search_fixed(s: Seq<u8>, p: int, e: int)
    ensures
        value_search(s, value_search(s, p, e), e) == value_search(s, p, e),
    decreases e - p,
{
    lemma_skip_trivia_fixed(s, p, e);
    let p1 = skip_trivia_from(s, p, e);
    if p1 < e && !(is_value_start_byte(s[p1]) || s[p1] == COMMA || s[p1] == RBRACKET || s[p1]
        == RBRACE) {
        lemma_skip_trivia_bounds(s, p, e);
        lemma_value_search_fixed(s, p1 + 1, e);
    }
}

/// The `\u` escape's four hex digits from `q`: hex digits are copied, and
/// once one is missing the rest are padded with `0`.
pub open spec fn unicode_digits(s: Seq<u8>, q: int, e: int, k: nat) -> (int, Seq<u8>)
    decreases k,
{
    if k == 0 {
        (q, seq![])
    } else if 0 <= q < e && is_hex(s[q]) {
        let (q2, t) = unicode_digits(s, q + 1, e, (k - 1) as nat);
        (q2, seq![s[q]] + t)
    } else {
        let (q2, t) = unicode_digits(s, q, e, (k - 1) as nat);
        (q2, seq![ZERO] + t)
    }
}

/// What follows a backslash at `q` inside a string: the standard escapes
/// are kept, `\u` gets its four hex digits, an unknown escape loses the
/// backslash, and a backslash at the end is kept as a literal backslash.
pub open spec fn escape_at(s: Seq<u8>, q: int, e: int) -> (int, Seq<u8>) {
    if !(0 <= q < e) {
        (q, seq![BACKSLASH, BACKSLASH])
    } else {
        let c = s[q];
        if c == DQUOTE || c == BACKSLASH || c == SLASH || c == LOWER_B || c == LOWER_F || c
            == LOWER_N || c == LOWER_R || c == LOWER_T {
            (q + 1, seq![BACKSLASH, c])
        } else if c == LOWER_U {
            let (q2, t) = unicode_digits(s, q + 1, e, 4);
            (q2, seq![BACKSLASH, LOWER_U] + t)
        } else {
            (q + 1, escape_byte(c))
        }
    }
}

pub proof fn lemma_unicode_digits_bounds(s: Seq<u8>, q: int, e: int, k: nat)
    requires
        0 <= q <= e,
    ensures
        q <= unicode_digits(s, q, e, k).0 <= e,
    decreases k,
{
    if k > 0 {
        if q < e && is_hex(s[q]) {
            lemma_unicode_digits_bounds(s, q + 1, e, (k - 1) as nat);
        } else {
            lemma_unicode_digits_bounds(s, q, e, (k - 1) as nat);
        }
    }
}

pub proof fn lemma_escape_at_bounds(s: Seq<u8>, q: int, e: int)
    requires
        0 <= q <= e,
    ensures
        q <= escape_at(s, q, e).0 <= e,
{
    if q < e {
        lemma_unicode_digits_bounds(s, q + 1, e, 4);
    }
}

/// The rest of a string from `q`, inside the quote `quote`: the text written
/// up to and including the closing `"`, and where the cursor stops. A
/// missing end quote is inserted at the end.
pub open spec fn string_body(s: Seq<u8>, q: int, e: int, quote: u8) -> (int, Seq<u8>)
    decreases e - q,
{
    if !(0 <= q < e) {
        (q, seq![DQUOTE])
    } else if s[q] == quote {
        (q + 1, seq![DQUOTE])
    } else if s[q] == BACKSLASH {
        proof {
            lemma_escape_at_bounds(s, q + 1, e);
        }
        let (q2, t) = escape_at(s, q + 1, e);
        let (q3, rest) = string_body(s, q2, e, quote);
        (q3, t + rest)
    } else {
        let (q3, rest) = string_body(s, q + 1, e, quote);
        (q3, escape_byte(s[q]) + rest)
    }
}

/// The string whose opening quote is at `p`.
pub open spec fn string_at(s: Seq<u8>, p: int, e: int) -> (int, Seq<u8>) {
    let (q, body) = string_body(s, p + 1, e, s[p]);
    (q, seq![DQUOTE] + body)
}

/// The object key that starts at `p`: a quoted string, or a bare token
/// written as a string.
pub open spec fn key_at(s: Seq<u8>, p: int, e: int) -> (int, Seq<u8>) {
    if s[p] == DQUOTE || s[p] == SQUOTE {
        string_at(s, p, e)
    } else {
        let q = token_end(s, p, e);
        (q, quoted(s.subrange(p, q)))
    }
}

pub proof fn lemma_string_body_bounds(s: Seq<u8>, q: int, e: int, quote: u8)
    requires
        0 <= q <= e,
    ensures
        q <= string_body(s, q, e, quote).0 <= e,
    decreases e - q,
{
    if q < e && s[q] != quote {
        if s[q] == BACKSLASH {
            lemma_escape_at_bounds(s, q + 1, e);
            lemma_string_body_bounds(s, escape_at(s, q + 1, e).0, e, quote);
        } else {
            lemma_string_body_bounds(s, q + 1, e, quote);
        }
    }
}

pub proof fn lemma_value_search_bounds(s: Seq<u8>, p: int, e: int)
    requires
        p <= e,
    ensures
        p <= value_search(s, p, e) <= e,
    decreases e - p,
{
    lemma_skip_trivia_bounds(s, p, e);
    let p1 = skip_trivia_from(s, p, e);
    if p1 < e && !(is_value_start_byte(s[p1]) || s[p1] == COMMA || s[p1] == RBRACKET || s[p1]
        == RBRACE) {
        lemma_value_search_bounds(s, p1 + 1, e);
    }
}

/// The value read from where the search for it stops is the value read from
/// where the search started.
pub proof fn lemma_value_at_from_search(s: Seq<u8>, p: int, e: int, d: int)
    ensures
        value_at(s, value_search(s, p, e), e, d) == value_at(s, p, e, d),
{
    lemma_value_search_fixed(s, p, e);
}

/// A value that starts right at the cursor is always found.
pub proof fn lemma_value_at_found(s: Seq<u8>, p: int, e: int, d: int)
    requires
        0 <= p < e <= s.len(),
        is_value_start_byte(s[p]),
    ensures
        value_at(s, p, e, d) matches Ok((_q, found, _t)) ==> found,
{
    lemma_skip_trivia_bounds(s, p, e);
    assert(skip_trivia_from(s, p, e) == p);
    assert(value_search(s, p, e) == p);
    if is_number_start_byte(s[p]) || is_identifier_start_byte(s[p]) {
        assert(!ends_token(s, p, e));
        lemma_token_end_bounds(s, p + 1, e);
    }
}

/// A key always moves the cursor.
pub proof fn lemma_key_at_advances(s: Seq<u8>, p: int, e: int)
    requires
        0 <= p < e,
        can_start_key_byte(s[p]),
    ensures
        p < key_at(s, p, e).0 <= e,
{
    if s[p] == DQUOTE || s[p] == SQUOTE {
        lemma_string_body_bounds(s, p + 1, e, s[p]);
    } else {
        assert(!ends_token(s, p, e));
        lemma_token_end_bounds(s, p + 1, e);
    }
}

pub proof fn lemma_key_at_bounds(s: Seq<u8>, p: int, e: int)
    requires
        0 <= p < e,
    ensures
        p <= key_at(s, p, e).0 <= e,
{
    if s[p] == DQUOTE || s[p] == SQUOTE {
        lemma_string_body_bounds(s, p + 1, e, s[p]);
    } else {
        lemma_token_end_bounds(s, p, e);
    }
}

/// `acc` written before what `r` writes.
pub open spec fn prefixed(acc: Seq<u8>, r: Result<(int, Seq<u8>), RepairError>) -> Result<
    (int, Seq<u8>),
    RepairError,
> {
    match r {
        Err(f) => Err(f),
        Ok((q, t)) => Ok((q, acc + t)),
    }
}

pub proof fn lemma_prefixed_twice(a: Seq<u8>, b: Seq<u8>, r: Result<(int, Seq<u8>), RepairError>)
    ensures
        prefixed(a, prefixed(b, r)) == prefixed(a + b, r),
{
    if let Ok((q, t)) = r {
        assert(a + (b + t) =~= (a + b) + t);
    }
}

/// The value at `p`, at nesting `d`: the error that refuses it, or where the
/// cursor stops, whether a value was found, and its text (empty when none
/// was). A container met at nesting `MAX_DEPTH` or more is refused.
pub open spec fn value_at(s: Seq<u8>, p: int, e: int, d: int) -> Result<
    (int, bool, Seq<u8>),
    RepairError,
>
    decreases MAX_DEPTH + 1 - d, 0int, 0int,
{
    let p1 = value_search(s, p, e);
    if !(0 <= p1 < e) {
        Ok((p1, false, seq![]))
    } else {
        let b = s[p1];
        if b == LBRACE || b == LBRACKET {
            if d >= MAX_DEPTH {
                Err(RepairError::Depth(DepthLimitExceeded))
            } else if b == LBRACE {
                match members(s, p1 + 1, e, d + 1, false) {
                    Err(f) => Err(f),
                    Ok((q, t)) => Ok((q, true, seq![LBRACE] + t + seq![RBRACE])),
                }
            } else {
                match elements(s, p1 + 1, e, d + 1, false) {
                    Err(f) => Err(f),
                    Ok((q, t)) => Ok((q, true, seq![LBRACKET] + t + seq![RBRACKET])),
                }
            }
        } else if b == DQUOTE || b == SQUOTE {
            let (q, t) = string_at(s, p1, e);
            Ok((q, true, t))
        } else if is_number_start_byte(b) || is_identifier_start_byte(b) {
            let q = token_end(s, p1, e);
            if q == p1 {
                Ok((p1, false, seq![]))
            } else if is_number_start_byte(b) {
                Ok((q, true, number_or_word_text(s.subrange(p1, q))))
            } else {
                Ok((q, true, word_text(s.subrange(p1, q))))
            }
        } else {
            Ok((p1, false, seq![]))
        }
    }
}

/// The members of an object from `p` (its `{` is already read), at nesting
/// `d`; `has` tells whether an entry was already written. Skips bytes that
/// cannot start a key, inserts missing commas, colons and `null` values,
/// and stops at `}` (read), at `]` (left for the parent) or at the end.
pub open spec fn members(s: Seq<u8>, p: int, e: int, d: int, has: bool) -> Result<
    (int, Seq<u8>),
    RepairError,
>
    decreases MAX_DEPTH + 1 - d, 1int, e - p,
{
    let p1 = skip_trivia_from(s, p, e);
    if p1 < e && s[p1] == RBRACE {
        Ok((p1 + 1, seq![]))
    } else if p1 >= e || s[p1] == RBRACKET {
        Ok((p1, seq![]))
    } else if !can_start_key_byte(s[p1]) {
        proof {
            lemma_skip_trivia_bounds(s, p, e);
        }
        members(s, p1 + 1, e, d, has)
    } else {
        match member_at(s, p1, e, d, has) {
            Err(f) => Err(f),
            Ok((p5, entry)) => {
                // The key always moves the cursor, so the loop goes on here.
                if p < p5 <= e {
                    prefixed(entry, members(s, p5, e, d, true))
                } else {
                    Ok((p5, entry))
                }
            },
        }
    }
}

/// A quoted value that opens at `p1` closed just before `q`, and a bare word
/// follows at once, itself followed by a quote of the same kind.
pub open spec fn glued_quote(s: Seq<u8>, p1: int, q: int, e: int) -> bool {
    &&& 0 <= p1 < e
    &&& (s[p1] == DQUOTE || s[p1] == SQUOTE)
    &&& token_end(s, q, e) > q
    &&& peek_at(s, token_end(s, q, e), e) == Some(s[p1])
}

/// One object entry whose key starts at `p`: a comma when an entry was
/// already written, the key, a colon (read when present) and the value, or
/// `null` when there is none. A quoted value glued to a quoted word, as in
/// `"say "hello"`, is refused as ambiguous.
pub open spec fn member_at(s: Seq<u8>, p: int, e: int, d: int, has: bool) -> Result<
    (int, Seq<u8>),
    RepairError,
>
    decreases MAX_DEPTH + 1 - d, 0int, 1int,
{
    let (p2, key) = key_at(s, p, e);
    let p3 = skip_trivia_from(s, p2, e);
    let p4 = if p3 < e && s[p3] == COLON {
        p3 + 1
    } else {
        p3
    };
    match value_at(s, p4, e, d) {
        Err(f) => Err(f),
        Ok((p5, found, v)) => {
            let sep = if has {
                seq![COMMA]
            } else {
                seq![]
            };
            if glued_quote(s, value_search(s, p4, e), p5, e) {
                Err(RepairError::AmbiguousQuote)
            } else {
                Ok(
                    (
                        p5,
                        sep + key + seq![COLON] + if found {
                            v
                        } else {
                            null_text()
                        },
                    ),
                )
            }
        },
    }
}

/// The items of an array from `p` (its `[` is already read), at nesting
/// `d`; `has` tells whether an item was already written. Skips bytes that
/// cannot start a value, inserts missing commas, and stops at `]` (read), at
/// `}` (left for the parent) or at the end.
pub open spec fn elements(s: Seq<u8>, p: int, e: int, d: int, has: bool) -> Result<
    (int, Seq<u8>),
    RepairError,
>
    decreases MAX_DEPTH + 1 - d, 1int, e - p,
{
    let p1 = skip_trivia_from(s, p, e);
    if p1 < e && s[p1] == RBRACKET {
        Ok((p1 + 1, seq![]))
    } else if p1 >= e || s[p1] == RBRACE {
        Ok((p1, seq![]))
    } else if !is_value_start_byte(s[p1]) {
        proof {
            lemma_skip_trivia_bounds(s, p, e);
        }
        elements(s, p1 + 1, e, d, has)
    } else {
        match value_at(s, p1, e, d) {
            Err(f) => Err(f),
            Ok((p2, _found, v)) => {
                let sep = if has {
                    seq![COMMA]
                } else {
                    seq![]
                };
                let item = sep + v;
                // A value start is always read, so the loop goes on here.
                if p < p2 <= e {
                    prefixed(item, elements(s, p2, e, d, true))
                } else {
                    Ok((p2, item))
                }
            },
        }
    }
}

/// The repaired text of `input` (its UTF-8 bytes), or the error that
/// refuses it: more than `MAX_DEPTH` containers open at once, or an
/// ambiguous quote in an object value. The value is looked for
/// after the byte-order mark and inside Markdown fences, preferring the
/// first `{` or `[` outside quotes; when there is no value the text is
/// `null`.
pub open spec fn repair_text(input: Seq<u8>) -> Result<Seq<u8>, RepairError> {
    let s = strip_bom(input);
    let e = fence_end(s);
    let p = structural_start(s, fence_start(s), e);
    match value_at(s, p, e, 0) {
        Err(f) => Err(f),
        Ok((_q, found, t)) => Ok(
            if found {
                t
            } else {
                null_text()
            },
        ),
    }
}


// ---------------------------------------------------------------------------
// The parser
// ---------------------------------------------------------------------------

impl DepthLimitExceeded {
    /// The error's message.
    pub fn message(&self) -> (r: String)
        ensures
            r@ == "JSON nesting exceeds the limit of 128 containers"@,
    {
        "JSON nesting exceeds the limit of 128 containers".to_owned()
    }
}

/// `String::from_utf8` from std, whose documentation says that it returns
/// `Ok` with the string made of `bytes` exactly when `bytes` is valid UTF-8.
/// The contract claims that the string's characters are the decoding of the
/// bytes; the call is made only on valid UTF-8, so `expect` never panics.
#[verifier::external_body]
fn string_from_utf8(bytes: Vec<u8>) -> (s: String)
    requires
        valid_utf8(bytes@),
    ensures
        s@ == decode_utf8(bytes@),
{
    String::from_utf8(bytes).expect("repair output is always utf-8")
}

impl RepairError {
    /// The error's message.
    pub fn message(&self) -> (r: String)
        ensures
            *self == RepairError::Depth(DepthLimitExceeded) ==> r@
                == "JSON nesting exceeds the limit of 128 containers"@,
            *self == RepairError::AmbiguousQuote ==> r@
                == "ambiguous unescaped quote in an object value; escape the inner quotes"@,
    {
        match self {
            RepairError::Depth(depth) => depth.message(),
            RepairError::AmbiguousQuote => {
                "ambiguous unescaped quote in an object value; escape the inner quotes".to_owned()
            },
        }
    }
}

/// Repair `input` into one compact JSON value. The UTF-8 bytes of the
/// result are exactly `repair_text` of the input's bytes, and the repair
/// fails exactly when `repair_text` does, with the same error.
pub fn repair(input: &str) -> (r: Result<String, RepairError>)
    ensures
        match repair_text(encode_utf8(input@)) {
            Err(f) => r == Err::<String, RepairError>(f),
            Ok(text) => r matches Ok(out) && encode_utf8(out@) == text,
        },
{
    let parser = Parser::new(input);
    let r = parser.repair();
    proof {
        encode_utf8_valid_utf8(input@);
        lemma_repair_text_valid(encode_utf8(input@));
        if let Ok(text) = repair_text(encode_utf8(input@)) {
            decode_utf8_encode_utf8(text);
        }
    }
    r
}

/// The lexer reads the same bytes through the same window.
pub open spec fn same_window(a: LexerState, b: LexerState) -> bool {
    a.bytes == b.bytes && a.end == b.end
}

struct Parser<'a> {
    lexer: Lexer<'a>,
    output: Vec<u8>,
}

impl<'a> Parser<'a> {
    fn new(input: &'a str) -> (r: Self)
        ensures
            r.lexer@.bytes == strip_bom(encode_utf8(input@)),
            r.lexer@.pos == fence_start(r.lexer@.bytes),
            r.lexer@.end == fence_end(r.lexer@.bytes),
            window_ok(r.lexer@.bytes, r.lexer@.end),
            char_start(r.lexer@.bytes, r.lexer@.pos),
            r.output@ == Seq::<u8>::empty(),
    {
        let lexer = Lexer::new(input);
        proof {
            encode_utf8_valid_utf8(input@);
            lemma_strip_bom_valid(encode_utf8(input@));
            lemma_fences_char_start(lexer@.bytes);
        }
        Self { lexer, output: Vec::with_capacity(input.len().saturating_add(16)) }
    }

    fn repair(self) -> (r: Result<String, RepairError>)
        requires
            window_ok(self.lexer@.bytes, self.lexer@.end),
            char_start(self.lexer@.bytes, self.lexer@.pos),
            self.output@ == Seq::<u8>::empty(),
        ensures
            match value_at(
                self.lexer@.bytes,
                structural_start(self.lexer@.bytes, self.lexer@.pos, self.lexer@.end),
                self.lexer@.end,
                0,
            ) {
                Err(f) => r == Err::<String, RepairError>(f),
                Ok((_q, found, t)) => r matches Ok(text) && text@ == decode_utf8(
                    if found {
                        t
                    } else {
                        null_text()
                    },
                ),
            },
    {
        let mut parser = self;
        proof {
            use_type_invariant(&parser.lexer);
            lemma_repair_window_valid(parser.lexer@.bytes, parser.lexer@.pos, parser.lexer@.end);
        }
        parser.lexer.prefer_structural_value_start();
        proof {
            use_type_invariant(&parser.lexer);
        }
        let found = match parser.parse_value(0) {
            Ok(found) => found,
            Err(error) => return Err(error),
        };
        if !found {
            push_null(&mut parser.output);
            assert(parser.output@ =~= null_text());
        } else {
            assert(parser.output@ =~= Seq::<u8>::empty() + parser.output@);
        }
        // Input is UTF-8; only ASCII syntax is removed or inserted. Non-ASCII
        // bytes are always copied together as part of a token or string.
        Ok(string_from_utf8(parser.output))
    }

    fn skip_to_value_start(&mut self)
        ensures
            same_window(old(self).lexer@, final(self).lexer@),
            final(self).output@ == old(self).output@,
            final(self).lexer@.pos == value_search(
                old(self).lexer@.bytes,
                old(self).lexer@.pos,
                old(self).lexer@.end,
            ),
    {
        let ghost s = self.lexer@.bytes;
        let ghost e = self.lexer@.end;
        let ghost p0 = self.lexer@.pos;
        self.lexer.skip_trivia();
        proof {
            lemma_skip_trivia_fixed(s, p0, e);
            lemma_value_search_skip(s, p0, e);
        }
        loop
            invariant
                s == self.lexer@.bytes,
                e == self.lexer@.end,
                s == old(self).lexer@.bytes,
                e == old(self).lexer@.end,
                p0 == old(self).lexer@.pos,
                self.output@ == old(self).output@,
                value_search(s, p0, e) == value_search(s, self.lexer@.pos, e),
                self.lexer@.pos == skip_trivia_from(s, self.lexer@.pos, e),
            ensures
                s == self.lexer@.bytes,
                e == self.lexer@.end,
                self.output@ == old(self).output@,
                self.lexer@.pos == value_search(s, p0, e),
            decreases self.lexer@.end - self.lexer@.pos,
        {
            proof {
                use_type_invariant(&self.lexer);
            }
            let byte = match self.lexer.peek() {
                Some(byte) => byte,
                None => break,
            };
            if is_value_start(byte) || byte == COMMA || byte == RBRACKET || byte == RBRACE {
                break;
            }
            let ghost p1 = self.lexer@.pos;
            self.lexer.bump();
            self.lexer.skip_trivia();
            proof {
                lemma_skip_trivia_fixed(s, p1 + 1, e);
                lemma_skip_trivia_bounds(s, p1 + 1, e);
                lemma_value_search_skip(s, p1 + 1, e);
            }
        }
    }

    fn parse_string(&mut self) -> (r: bool)
        requires
            old(self).lexer@.pos < old(self).lexer@.end,
        ensures
            r,
            same_window(old(self).lexer@, final(self).lexer@),
            final(self).lexer@.pos == string_at(
                old(self).lexer@.bytes,
                old(self).lexer@.pos,
                old(self).lexer@.end,
            ).0,
            final(self).output@ == old(self).output@ + string_at(
                old(self).lexer@.bytes,
                old(self).lexer@.pos,
                old(self).lexer@.end,
            ).1,
    {
        let ghost s = self.lexer@.bytes;
        let ghost e = self.lexer@.end;
        let ghost p = self.lexer@.pos;
        proof {
            use_type_invariant(&self.lexer);
        }
        let quote = match self.lexer.next() {
            Some(quote) => quote,
            None => return false,
        };
        self.output.push(DQUOTE);
        let ghost out1 = self.output@;
        let ghost mut acc: Seq<u8> = seq![];
        loop
            invariant
                s == self.lexer@.bytes,
                e == self.lexer@.end,
                s == old(self).lexer@.bytes,
                e == old(self).lexer@.end,
                p == old(self).lexer@.pos,
                quote == s[p],
                p + 1 <= self.lexer@.pos,
                out1 == old(self).output@ + seq![DQUOTE],
                self.output@ == out1 + acc,
                string_body(s, p + 1, e, quote) == ({
                    let r = string_body(s, self.lexer@.pos, e, quote);
                    (r.0, acc + r.1)
                }),
            ensures
                s == self.lexer@.bytes,
                e == self.lexer@.end,
                self.output@ == out1 + acc,
                out1 == old(self).output@ + seq![DQUOTE],
                string_body(s, p + 1, e, quote) == (self.lexer@.pos, acc + seq![DQUOTE]),
            decreases self.lexer@.end - self.lexer@.pos,
        {
            proof {
                use_type_invariant(&self.lexer);
            }
            let ghost q = self.lexer@.pos;
            let byte = match self.lexer.next() {
                Some(byte) => byte,
                None => break,
            };
            if byte == quote {
                self.output.push(DQUOTE);
                proof {
                    acc = acc + seq![DQUOTE];
                    assert(self.output@ =~= old(self).output@ + seq![DQUOTE] + acc);
                }
                return true;
            }
            if byte == BACKSLASH {
                proof {
                    lemma_escape_at_bounds(s, q + 1, e);
                }
                self.push_escaped_char();
                proof {
                    let t = escape_at(s, q + 1, e).1;
                    let rest = string_body(s, self.lexer@.pos, e, quote);
                    assert(acc + (t + rest.1) =~= (acc + t) + rest.1);
                    acc = acc + t;
                }
            } else {
                push_string_byte(&mut self.output, byte);
                proof {
                    let rest = string_body(s, q + 1, e, quote);
                    assert(acc + (escape_byte(byte) + rest.1) =~= (acc + escape_byte(byte)) + rest.1);
                    acc = acc + escape_byte(byte);
                }
            }
        }
        self.output.push(DQUOTE);
        proof {
            acc = acc + seq![DQUOTE];
            assert(self.output@ =~= old(self).output@ + (seq![DQUOTE] + acc));
        }
        true
    }

    fn push_escaped_char(&mut self)
        ensures
            same_window(old(self).lexer@, final(self).lexer@),
            final(self).lexer@.pos == escape_at(
                old(self).lexer@.bytes,
                old(self).lexer@.pos,
                old(self).lexer@.end,
            ).0,
            final(self).output@ == old(self).output@ + escape_at(
                old(self).lexer@.bytes,
                old(self).lexer@.pos,
                old(self).lexer@.end,
            ).1,
    {
        let ghost s = self.lexer@.bytes;
        let ghost e = self.lexer@.end;
        let ghost p = self.lexer@.pos;
        let ghost start = self.output@;
        let next = match self.lexer.next() {
            Some(next) => next,
            None => {
                self.output.push(BACKSLASH);
                self.output.push(BACKSLASH);
                assert(self.output@ =~= start + seq![BACKSLASH, BACKSLASH]);
                return;
            },
        };
        if next == DQUOTE || next == BACKSLASH || next == SLASH || next == LOWER_B || next
            == LOWER_F || next == LOWER_N || next == LOWER_R || next == LOWER_T {
            self.output.push(BACKSLASH);
            self.output.push(next);
            assert(self.output@ =~= start + seq![BACKSLASH, next]);
        } else if next == LOWER_U {
            self.output.push(BACKSLASH);
            self.output.push(LOWER_U);
            let ghost out1 = self.output@;
            let ghost mut acc: Seq<u8> = seq![];
            let mut i: usize = 0;
            while i < 4
                invariant
                    s == self.lexer@.bytes,
                    e == self.lexer@.end,
                    i <= 4,
                    out1 == start + seq![BACKSLASH, LOWER_U],
                    self.output@ == out1 + acc,
                    unicode_digits(s, p + 1, e, 4) == ({
                        let r = unicode_digits(s, self.lexer@.pos, e, (4 - i) as nat);
                        (r.0, acc + r.1)
                    }),
                decreases 4 - i,
            {
                let ghost q = self.lexer@.pos;
                let ghost rest = unicode_digits(s, q, e, (4 - i - 1) as nat);
                let mut pushed = false;
                if let Some(hex) = self.lexer.peek() {
                    if is_ascii_hexdigit(hex) {
                        self.output.push(hex);
                        self.lexer.bump();
                        pushed = true;
                        proof {
                            let rest1 = unicode_digits(s, q + 1, e, (4 - i - 1) as nat);
                            assert(acc + (seq![hex] + rest1.1) =~= (acc + seq![hex]) + rest1.1);
                            acc = acc + seq![hex];
                        }
                    }
                }
                if !pushed {
                    self.output.push(ZERO);
                    proof {
                        assert(acc + (seq![ZERO] + rest.1) =~= (acc + seq![ZERO]) + rest.1);
                        acc = acc + seq![ZERO];
                    }
                }
                i += 1;
            }
            assert(self.output@ =~= start + (seq![BACKSLASH, LOWER_U] + acc));
        } else {
            // Unknown escapes lose the backslash but preserve the character.
            push_string_byte(&mut self.output, next);
        }
    }

    fn parse_number_or_word(&mut self) -> (r: bool)
        ensures
            same_window(old(self).lexer@, final(self).lexer@),
            ({
                let s = old(self).lexer@.bytes;
                let p = old(self).lexer@.pos;
                let q = token_end(s, p, old(self).lexer@.end);
                &&& final(self).lexer@.pos == q
                &&& r == (q != p)
                &&& final(self).output@ == old(self).output@ + if q == p {
                    seq![]
                } else {
                    number_or_word_text(s.subrange(p, q))
                }
            }),
    {
        proof {
            use_type_invariant(&self.lexer);
            lemma_token_end_bounds(self.lexer@.bytes, self.lexer@.pos, self.lexer@.end);
        }
        let ghost start = self.output@;
        let token = self.lexer.read_bare_token();
        if token.len() == 0 {
            assert(self.output@ =~= start + seq![]);
            return false;
        }
        if push_number(&mut self.output, token) {
            return true;
        }
        push_quoted_bytes(&mut self.output, token);
        true
    }

    fn parse_identifier_value(&mut self) -> (r: bool)
        ensures
            same_window(old(self).lexer@, final(self).lexer@),
            ({
                let s = old(self).lexer@.bytes;
                let p = old(self).lexer@.pos;
                let q = token_end(s, p, old(self).lexer@.end);
                &&& final(self).lexer@.pos == q
                &&& r == (q != p)
                &&& final(self).output@ == old(self).output@ + if q == p {
                    seq![]
                } else {
                    word_text(s.subrange(p, q))
                }
            }),
    {
        proof {
            use_type_invariant(&self.lexer);
            lemma_token_end_bounds(self.lexer@.bytes, self.lexer@.pos, self.lexer@.end);
        }
        let ghost start = self.output@;
        let token = self.lexer.read_bare_token();
        if token.len() == 0 {
            assert(self.output@ =~= start + seq![]);
            return false;
        }
        push_word(&mut self.output, token);
        true
    }

    // Called only after can_start_object_key has recognized a nonempty key.
    fn parse_key(&mut self)
        requires
            old(self).lexer@.pos < old(self).lexer@.end,
            can_start_key_byte(old(self).lexer@.bytes[old(self).lexer@.pos]),
        ensures
            same_window(old(self).lexer@, final(self).lexer@),
            final(self).lexer@.pos == key_at(
                old(self).lexer@.bytes,
                old(self).lexer@.pos,
                old(self).lexer@.end,
            ).0,
            final(self).output@ == old(self).output@ + key_at(
                old(self).lexer@.bytes,
                old(self).lexer@.pos,
                old(self).lexer@.end,
            ).1,
    {
        proof {
            use_type_invariant(&self.lexer);
        }
        let byte = self.lexer.peek();
        if byte == Some(DQUOTE) || byte == Some(SQUOTE) {
            self.parse_string();
        } else {
            let token = self.lexer.read_bare_token();
            push_quoted_bytes(&mut self.output, token);
        }
    }

    fn parse_value(&mut self, depth: usize) -> (r: Result<bool, RepairError>)
        ensures
            same_window(old(self).lexer@, final(self).lexer@),
            old(self).lexer@.pos <= final(self).lexer@.pos,
            r == Ok::<bool, RepairError>(true) ==> old(self).lexer@.pos < final(self).lexer@.pos,
            match value_at(
                old(self).lexer@.bytes,
                old(self).lexer@.pos,
                old(self).lexer@.end,
                depth as int,
            ) {
                Err(f) => r == Err::<bool, RepairError>(f),
                Ok((q, found, t)) => {
                    &&& r == Ok::<bool, RepairError>(found)
                    &&& final(self).lexer@.pos == q
                    &&& final(self).output@ == old(self).output@ + t
                },
            },
        decreases MAX_DEPTH + 1 - depth, 0int,
    {
        proof {
            use_type_invariant(&self.lexer);
            lemma_value_search_bounds(self.lexer@.bytes, self.lexer@.pos, self.lexer@.end);
        }
        let ghost start = self.output@;
        self.skip_to_value_start();
        proof {
            use_type_invariant(&self.lexer);
        }
        let ghost s = self.lexer@.bytes;
        let ghost e = self.lexer@.end;
        let ghost p1 = self.lexer@.pos;
        let byte = match self.lexer.peek() {
            Some(byte) => byte,
            None => {
                assert(self.output@ =~= start + seq![]);
                return Ok(false);
            },
        };
        if byte == LBRACE || byte == LBRACKET {
            if depth >= MAX_DEPTH {
                return Err(RepairError::Depth(DepthLimitExceeded));
            }
            if byte == LBRACE {
                if let Err(error) = self.parse_object(depth + 1) {
                    return Err(error);
                }
            } else {
                if let Err(error) = self.parse_array(depth + 1) {
                    return Err(error);
                }
            }
            Ok(true)
        } else if byte == DQUOTE || byte == SQUOTE {
            proof {
                lemma_string_body_bounds(s, p1 + 1, e, byte);
            }
            Ok(self.parse_string())
        } else if byte == PLUS || byte == MINUS || byte == DOT || is_ascii_digit(byte) {
            proof {
                lemma_token_end_bounds(s, p1, e);
            }
            Ok(self.parse_number_or_word())
        } else if is_identifier_start(byte) {
            proof {
                lemma_token_end_bounds(s, p1, e);
            }
            Ok(self.parse_identifier_value())
        } else {
            // Separators and closing delimiters belong to the caller. In
            // particular, a missing object value must not eat the next key.
            assert(self.output@ =~= start + seq![]);
            Ok(false)
        }
    }

    fn parse_object(&mut self, depth: usize) -> (r: Result<(), RepairError>)
        requires
            1 <= depth <= MAX_DEPTH,
            old(self).lexer@.pos < old(self).lexer@.end,
        ensures
            same_window(old(self).lexer@, final(self).lexer@),
            old(self).lexer@.pos < final(self).lexer@.pos,
            match members(
                old(self).lexer@.bytes,
                old(self).lexer@.pos + 1,
                old(self).lexer@.end,
                depth as int,
                false,
            ) {
                Err(f) => r == Err::<(), RepairError>(f),
                Ok((q, t)) => {
                    &&& r is Ok
                    &&& final(self).lexer@.pos == q
                    &&& final(self).output@ == old(self).output@ + (seq![LBRACE] + t + seq![RBRACE])
                },
            },
        decreases MAX_DEPTH + 1 - depth, 3int,
    {
        let ghost s = self.lexer@.bytes;
        let ghost e = self.lexer@.end;
        self.lexer.bump();
        self.output.push(LBRACE);
        let ghost p0 = self.lexer@.pos;
        let ghost out1 = self.output@;
        let ghost mut acc: Seq<u8> = seq![];
        let mut has_entries = false;

        loop
            invariant_except_break
                members(s, p0, e, depth as int, false) == prefixed(
                    acc,
                    members(s, self.lexer@.pos, e, depth as int, has_entries),
                ),
            invariant
                s == self.lexer@.bytes,
                e == self.lexer@.end,
                s == old(self).lexer@.bytes,
                e == old(self).lexer@.end,
                p0 == old(self).lexer@.pos + 1,
                1 <= depth <= MAX_DEPTH,
                p0 <= self.lexer@.pos,
                out1 == old(self).output@ + seq![LBRACE],
                self.output@ == out1 + acc,
            ensures
                members(s, p0, e, depth as int, false) == Ok::<(int, Seq<u8>), RepairError>(
                    (self.lexer@.pos, acc),
                ),
            decreases self.lexer@.end - self.lexer@.pos,
        {
            proof {
                use_type_invariant(&self.lexer);
                lemma_skip_trivia_bounds(s, self.lexer@.pos, e);
            }
            let ghost pstart = self.lexer@.pos;
            self.lexer.skip_trivia();
            let ghost p1 = self.lexer@.pos;
            if self.lexer.consume_if(RBRACE) || self.lexer.is_eof() {
                assert(acc + seq![] =~= acc);
                break;
            }
            // Close this object implicitly and let the parent consume ']'.
            if self.lexer.peek() == Some(RBRACKET) {
                assert(acc + seq![] =~= acc);
                break;
            }
            if !self.can_start_object_key() {
                self.lexer.bump();
                continue;
            }
            let ghost before_entry = self.output@;
            let ghost old_has = has_entries;
            if let Err(error) = self.parse_member(depth, has_entries) {
                return Err(error);
            }
            has_entries = true;
            proof {
                use_type_invariant(&self.lexer);
                let entry = self.output@.subrange(before_entry.len() as int, self.output@.len() as int);
                assert(self.output@ =~= before_entry + entry);
                lemma_prefixed_twice(acc, entry, members(s, self.lexer@.pos, e, depth as int, true));
                assert(member_at(s, p1, e, depth as int, old_has) is Ok);
                assert(entry =~= member_at(s, p1, e, depth as int, old_has)->Ok_0.1);
                assert(skip_trivia_from(s, pstart, e) == p1);
                assert(pstart <= p1 < self.lexer@.pos <= e);
                assert(members(s, pstart, e, depth as int, old_has) == prefixed(
                    entry,
                    members(s, self.lexer@.pos, e, depth as int, true),
                ));
                acc = acc + entry;
            }
        }
        self.output.push(RBRACE);
        assert(self.output@ =~= old(self).output@ + (seq![LBRACE] + acc + seq![RBRACE]));
        Ok(())
    }

    // One entry of an object, whose key starts at the cursor.
    #[verifier::spinoff_prover]
    #[verifier::rlimit(30)]
    fn parse_member(&mut self, depth: usize, has_entries: bool) -> (r: Result<(), RepairError>)
        requires
            1 <= depth <= MAX_DEPTH,
            old(self).lexer@.pos < old(self).lexer@.end,
            can_start_key_byte(old(self).lexer@.bytes[old(self).lexer@.pos]),
        ensures
            same_window(old(self).lexer@, final(self).lexer@),
            old(self).lexer@.pos < final(self).lexer@.pos,
            match member_at(
                old(self).lexer@.bytes,
                old(self).lexer@.pos,
                old(self).lexer@.end,
                depth as int,
                has_entries,
            ) {
                Err(f) => r == Err::<(), RepairError>(f),
                Ok((q, t)) => {
                    &&& r is Ok
                    &&& final(self).lexer@.pos == q
                    &&& final(self).output@ == old(self).output@ + t
                },
            },
        decreases MAX_DEPTH + 1 - depth, 2int,
    {
        proof {
            use_type_invariant(&self.lexer);
            lemma_key_at_advances(self.lexer@.bytes, self.lexer@.pos, self.lexer@.end);
        }
        let ghost s = self.lexer@.bytes;
        let ghost e = self.lexer@.end;
        let ghost p = self.lexer@.pos;
        let ghost start = self.output@;
        let ghost sep: Seq<u8> = if has_entries {
            seq![COMMA]
        } else {
            seq![]
        };
        if has_entries {
            self.output.push(COMMA);
        }
        assert(self.output@ =~= start + sep);
        self.parse_key();
        let ghost after_key = self.output@;
        proof {
            lemma_skip_trivia_bounds(s, self.lexer@.pos, e);
        }
        self.lexer.skip_trivia();
        self.lexer.consume_if(COLON);
        self.output.push(COLON);
        let ghost after_colon = self.output@;
        let found = match self.parse_member_value(depth) {
            Ok(found) => found,
            Err(error) => return Err(error),
        };
        let ghost after_value = self.output@;
        if !found {
            push_null(&mut self.output);
        }
        proof {
            let v = after_value.subrange(after_colon.len() as int, after_value.len() as int);
            assert(after_value =~= after_colon + v);
            let tail = if found {
                v
            } else {
                null_text()
            };
            assert(self.output@ =~= start + (sep + key_at(s, p, e).1 + seq![COLON] + tail));
        }
        Ok(())
    }

    // The value of an object entry, from the cursor after the colon.
    fn parse_member_value(&mut self, depth: usize) -> (r: Result<bool, RepairError>)
        ensures
            same_window(old(self).lexer@, final(self).lexer@),
            old(self).lexer@.pos <= final(self).lexer@.pos,
            ({
                let s = old(self).lexer@.bytes;
                let p4 = old(self).lexer@.pos;
                let e = old(self).lexer@.end;
                match value_at(s, p4, e, depth as int) {
                    Err(f) => r == Err::<bool, RepairError>(f),
                    Ok((q, found, t)) => if glued_quote(s, value_search(s, p4, e), q, e) {
                        r == Err::<bool, RepairError>(RepairError::AmbiguousQuote)
                    } else {
                        &&& r == Ok::<bool, RepairError>(found)
                        &&& final(self).lexer@.pos == q
                        &&& final(self).output@ == old(self).output@ + t
                    },
                }
            }),
        decreases MAX_DEPTH + 1 - depth, 1int,
    {
        let ghost s = self.lexer@.bytes;
        let ghost e = self.lexer@.end;
        let ghost p4 = self.lexer@.pos;
        proof {
            use_type_invariant(&self.lexer);
            lemma_value_search_bounds(s, p4, e);
        }
        self.skip_to_value_start();
        let ghost p1 = self.lexer@.pos;
        let opener = self.lexer.peek();
        proof {
            lemma_value_at_from_search(s, p4, e, depth as int);
        }
        let found = match self.parse_value(depth) {
            Ok(found) => found,
            Err(error) => return Err(error),
        };
        // A quoted value glued to a quoted word has unescaped inner quotes.
        if let Some(quote) = opener {
            if (quote == DQUOTE || quote == SQUOTE) && self.word_then_quote(quote) {
                proof {
                    assert(glued_quote(s, p1, self.lexer@.pos as int, e));
                }
                return Err(RepairError::AmbiguousQuote);
            }
        }
        Ok(found)
    }

    fn parse_array(&mut self, depth: usize) -> (r: Result<(), RepairError>)
        requires
            1 <= depth <= MAX_DEPTH,
            old(self).lexer@.pos < old(self).lexer@.end,
        ensures
            same_window(old(self).lexer@, final(self).lexer@),
            old(self).lexer@.pos < final(self).lexer@.pos,
            match elements(
                old(self).lexer@.bytes,
                old(self).lexer@.pos + 1,
                old(self).lexer@.end,
                depth as int,
                false,
            ) {
                Err(f) => r == Err::<(), RepairError>(f),
                Ok((q, t)) => {
                    &&& r is Ok
                    &&& final(self).lexer@.pos == q
                    &&& final(self).output@ == old(self).output@ + (seq![LBRACKET] + t + seq![
                        RBRACKET,
                    ])
                },
            },
        decreases MAX_DEPTH + 1 - depth, 2int,
    {
        let ghost s = self.lexer@.bytes;
        let ghost e = self.lexer@.end;
        self.lexer.bump();
        self.output.push(LBRACKET);
        let ghost p0 = self.lexer@.pos;
        let ghost out1 = self.output@;
        let ghost mut acc: Seq<u8> = seq![];
        let mut has_items = false;

        loop
            invariant_except_break
                elements(s, p0, e, depth as int, false) == prefixed(
                    acc,
                    elements(s, self.lexer@.pos, e, depth as int, has_items),
                ),
            invariant
                s == self.lexer@.bytes,
                e == self.lexer@.end,
                s == old(self).lexer@.bytes,
                e == old(self).lexer@.end,
                p0 == old(self).lexer@.pos + 1,
                1 <= depth <= MAX_DEPTH,
                p0 <= self.lexer@.pos,
                out1 == old(self).output@ + seq![LBRACKET],
                self.output@ == out1 + acc,
            ensures
                elements(s, p0, e, depth as int, false) == Ok::<(int, Seq<u8>), RepairError>(
                    (self.lexer@.pos, acc),
                ),
            decreases self.lexer@.end - self.lexer@.pos,
        {
            proof {
                use_type_invariant(&self.lexer);
                lemma_skip_trivia_bounds(s, self.lexer@.pos, e);
            }
            let ghost pstart = self.lexer@.pos;
            self.lexer.skip_trivia();
            let ghost p1 = self.lexer@.pos;
            if self.lexer.consume_if(RBRACKET) || self.lexer.is_eof() {
                assert(acc + seq![] =~= acc);
                break;
            }
            // A parent's closing brace must not become part of this array.
            if self.lexer.peek() == Some(RBRACE) {
                assert(acc + seq![] =~= acc);
                break;
            }
            let starts_value = match self.lexer.peek() {
                Some(byte) => is_value_start(byte),
                None => false,
            };
            if !starts_value {
                self.lexer.bump();
                assert(elements(s, pstart, e, depth as int, has_items) == elements(
                    s,
                    self.lexer@.pos,
                    e,
                    depth as int,
                    has_items,
                ));
                continue;
            }

            let ghost before_item = self.output@;
            let ghost old_has = has_items;
            if has_items {
                self.output.push(COMMA);
            }
            proof {
                use_type_invariant(&self.lexer);
                lemma_value_at_found(s, p1, e, depth as int);
            }
            if let Err(error) = self.parse_value(depth) {
                return Err(error);
            }
            has_items = true;
            proof {
                use_type_invariant(&self.lexer);
                let item = self.output@.subrange(before_item.len() as int, self.output@.len() as int);
                assert(self.output@ =~= before_item + item);
                lemma_prefixed_twice(acc, item, elements(s, self.lexer@.pos, e, depth as int, true));
                assert(value_at(s, p1, e, depth as int) matches Ok((q, _f, _v)) && q
                    == self.lexer@.pos);
                assert(skip_trivia_from(s, pstart, e) == p1);
                assert(pstart <= p1 < self.lexer@.pos <= e);
                assert(is_value_start_byte(s[p1]));
                assert(s[p1] != RBRACKET && s[p1] != RBRACE);
                assert(item == (if old_has {
                    seq![COMMA]
                } else {
                    seq![]
                }) + value_at(s, p1, e, depth as int)->Ok_0.2);
                assert(elements(s, pstart, e, depth as int, old_has) == prefixed(
                    item,
                    elements(s, self.lexer@.pos, e, depth as int, true),
                ));
                acc = acc + item;
            }
        }
        self.output.push(RBRACKET);
        assert(self.output@ =~= old(self).output@ + (seq![LBRACKET] + acc + seq![RBRACKET]));
        Ok(())
    }

    // Whether a bare word starts at the cursor and `quote` follows it at once.
    fn word_then_quote(&self, quote: u8) -> (r: bool)
        ensures
            ({
                let s = self.lexer@.bytes;
                let p = self.lexer@.pos;
                let e = self.lexer@.end;
                r == (token_end(s, p, e) > p && peek_at(s, token_end(s, p, e), e) == Some(quote))
            }),
    {
        proof {
            use_type_invariant(&self.lexer);
            lemma_token_end_bounds(self.lexer@.bytes, self.lexer@.pos, self.lexer@.end);
        }
        let mut lookahead = self.lexer;
        let word = lookahead.read_bare_token();
        word.len() > 0 && lookahead.peek() == Some(quote)
    }

    fn can_start_object_key(&self) -> (r: bool)
        ensures
            r == (self.lexer@.pos < self.lexer@.end && can_start_key_byte(
                self.lexer@.bytes[self.lexer@.pos],
            )),
    {
        proof {
            use_type_invariant(&self.lexer);
        }
        match self.lexer.peek() {
            Some(byte) => byte == DQUOTE || byte == SQUOTE || byte == MINUS || is_ascii_digit(byte)
                || is_identifier_start(byte),
            None => false,
        }
    }
}

} // verus!
