//! Byte cursor over the input: BOM and Markdown fence trimming, trivia
//! (whitespace and comments), bare tokens and the preamble scan.
use vstd::prelude::*;
use vstd::utf8::encode_utf8;

verus! {

// ---------------------------------------------------------------------------
// ASCII bytes that the grammar names
// ---------------------------------------------------------------------------

pub const TAB: u8 = 0x09;
pub const LF: u8 = 0x0A;
pub const FF: u8 = 0x0C;
pub const CR: u8 = 0x0D;
pub const SPACE: u8 = 0x20;
pub const DQUOTE: u8 = 0x22;
pub const SQUOTE: u8 = 0x27;
pub const STAR: u8 = 0x2A;
pub const PLUS: u8 = 0x2B;
pub const COMMA: u8 = 0x2C;
pub const MINUS: u8 = 0x2D;
pub const DOT: u8 = 0x2E;
pub const SLASH: u8 = 0x2F;
pub const COLON: u8 = 0x3A;
pub const LBRACKET: u8 = 0x5B;
pub const BACKSLASH: u8 = 0x5C;
pub const RBRACKET: u8 = 0x5D;
pub const BACKTICK: u8 = 0x60;
pub const LBRACE: u8 = 0x7B;
pub const RBRACE: u8 = 0x7D;

// ---------------------------------------------------------------------------
// Byte classes
// ---------------------------------------------------------------------------

/// ASCII whitespace as `u8::is_ascii_whitespace` defines it: space, tab,
/// line feed, form feed and carriage return.
pub open spec fn is_ws(b: u8) -> bool {
    b == SPACE || b == TAB || b == LF || b == FF || b == CR
}

pub open spec fn is_newline(b: u8) -> bool {
    b == LF || b == CR
}

pub open spec fn is_digit(b: u8) -> bool {
    0x30u8 <= b <= 0x39u8
}

pub open spec fn is_alpha(b: u8) -> bool {
    (0x41u8 <= b <= 0x5Au8) || (0x61u8 <= b <= 0x7Au8)
}

pub open spec fn is_alnum(b: u8) -> bool {
    is_digit(b) || is_alpha(b)
}

pub open spec fn is_hex(b: u8) -> bool {
    is_digit(b) || (0x41u8 <= b <= 0x46u8) || (0x61u8 <= b <= 0x66u8)
}

pub fn is_ascii_whitespace(b: u8) -> (r: bool)
    ensures
        r == is_ws(b),
{
    b == SPACE || b == TAB || b == LF || b == FF || b == CR
}

pub fn is_ascii_digit(b: u8) -> (r: bool)
    ensures
        r == is_digit(b),
{
    0x30u8 <= b && b <= 0x39u8
}

pub fn is_ascii_alphabetic(b: u8) -> (r: bool)
    ensures
        r == is_alpha(b),
{
    (0x41u8 <= b && b <= 0x5Au8) || (0x61u8 <= b && b <= 0x7Au8)
}

pub fn is_ascii_alphanumeric(b: u8) -> (r: bool)
    ensures
        r == is_alnum(b),
{
    is_ascii_digit(b) || is_ascii_alphabetic(b)
}

pub fn is_ascii_hexdigit(b: u8) -> (r: bool)
    ensures
        r == is_hex(b),
{
    is_ascii_digit(b) || (0x41u8 <= b && b <= 0x46u8) || (0x61u8 <= b && b <= 0x66u8)
}

// ---------------------------------------------------------------------------
// Comments
// ---------------------------------------------------------------------------

/// A comment (`//` or `/*`) starts at `p`, inside the window that ends at `e`.
pub open spec fn starts_comment_at(s: Seq<u8>, p: int, e: int) -> bool {
    &&& 0 <= p
    &&& p + 1 < e
    &&& s[p] == SLASH
    &&& (s[p + 1] == SLASH || s[p + 1] == STAR)
}

/// The first index at or after `q` that is `e` or holds a line break.
pub open spec fn line_end(s: Seq<u8>, q: int, e: int) -> int
    decreases e - q,
{
    if q >= e || is_newline(s[q]) {
        q
    } else {
        line_end(s, q + 1, e)
    }
}

/// The index just past the first `*/` that starts at or after `q`, or `e`
/// when the block comment is never closed.
pub open spec fn block_end(s: Seq<u8>, q: int, e: int) -> int
    decreases e - q,
{
    if q + 1 >= e {
        e
    } else if s[q] == STAR && s[q + 1] == SLASH {
        q + 2
    } else {
        block_end(s, q + 1, e)
    }
}

/// Where the comment that starts at `p` ends: a line comment runs to the
/// line break (or `e`), a block comment through its `*/` (or to `e`).
pub open spec fn comment_stop(s: Seq<u8>, p: int, e: int) -> int {
    if s[p + 1] == SLASH {
        line_end(s, p + 2, e)
    } else {
        block_end(s, p + 2, e)
    }
}

pub proof fn lemma_line_end_bounds(s: Seq<u8>, q: int, e: int)
    requires
        q <= e,
    ensures
        q <= line_end(s, q, e) <= e,
    decreases e - q,
{
    if q < e && !is_newline(s[q]) {
        lemma_line_end_bounds(s, q + 1, e);
    }
}

pub proof fn lemma_block_end_bounds(s: Seq<u8>, q: int, e: int)
    requires
        q <= e,
    ensures
        q <= block_end(s, q, e) <= e,
    decreases e - q,
{
    if q + 1 < e && !(s[q] == STAR && s[q + 1] == SLASH) {
        lemma_block_end_bounds(s, q + 1, e);
    }
}

pub proof fn lemma_comment_stop_bounds(s: Seq<u8>, p: int, e: int)
    requires
        starts_comment_at(s, p, e),
    ensures
        p + 2 <= comment_stop(s, p, e) <= e,
{
    lemma_line_end_bounds(s, p + 2, e);
    lemma_block_end_bounds(s, p + 2, e);
}

fn starts_comment(bytes: &[u8], pos: usize, end: usize) -> (r: bool)
    requires
        end <= bytes@.len(),
    ensures
        r == starts_comment_at(bytes@, pos as int, end as int),
{
    pos < end && end - pos > 1 && bytes[pos] == SLASH && (bytes[pos + 1] == SLASH || bytes[pos
        + 1] == STAR)
}

// Comments are recognized only outside strings. An unfinished comment extends
// to the end, so the parser can close any containers opened before it.
fn comment_end(bytes: &[u8], pos: usize, end: usize) -> (r: Option<usize>)
    requires
        end <= bytes@.len(),
    ensures
        r matches Some(c) ==> starts_comment_at(bytes@, pos as int, end as int) && c
            == comment_stop(bytes@, pos as int, end as int),
        r is None ==> !starts_comment_at(bytes@, pos as int, end as int),
{
    if !starts_comment(bytes, pos, end) {
        return None;
    }
    let mut cursor = pos + 2;
    if bytes[pos + 1] == SLASH {
        while cursor < end && !(bytes[cursor] == CR || bytes[cursor] == LF)
            invariant
                pos + 2 <= cursor <= end <= bytes@.len(),
                starts_comment_at(bytes@, pos as int, end as int),
                bytes@[pos + 1] == SLASH,
                line_end(bytes@, cursor as int, end as int) == line_end(
                    bytes@,
                    pos + 2,
                    end as int,
                ),
            decreases end - cursor,
        {
            cursor += 1;
        }
    } else {
        while end - cursor > 1
            invariant
                pos + 2 <= cursor <= end <= bytes@.len(),
                starts_comment_at(bytes@, pos as int, end as int),
                bytes@[pos + 1] != SLASH,
                block_end(bytes@, cursor as int, end as int) == block_end(
                    bytes@,
                    pos + 2,
                    end as int,
                ),
            decreases end - cursor,
        {
            if bytes[cursor] == STAR && bytes[cursor + 1] == SLASH {
                assert(block_end(bytes@, cursor as int, end as int) == cursor + 2);
                return Some(cursor + 2);
            }
            cursor += 1;
        }
        cursor = end;
    }
    Some(cursor)
}


// ---------------------------------------------------------------------------
// Byte-order mark and Markdown fences
// ---------------------------------------------------------------------------

/// The input starts with the UTF-8 encoding of U+FEFF.
pub open spec fn has_bom(b: Seq<u8>) -> bool {
    b.len() >= 3 && b[0] == 0xEFu8 && b[1] == 0xBBu8 && b[2] == 0xBFu8
}

/// The bytes the lexer works on: the input without its byte-order mark.
pub open spec fn strip_bom(b: Seq<u8>) -> Seq<u8> {
    if has_bom(b) {
        b.subrange(3, b.len() as int)
    } else {
        b
    }
}

/// The first index at or after `i` (and before `e`) that is not whitespace.
pub open spec fn skip_ws(s: Seq<u8>, i: int, e: int) -> int
    decreases e - i,
{
    if i < e && is_ws(s[i]) {
        skip_ws(s, i + 1, e)
    } else {
        i
    }
}

/// The first index at or after `i` (and before `e`) that is not a line break.
pub open spec fn skip_newlines(s: Seq<u8>, i: int, e: int) -> int
    decreases e - i,
{
    if i < e && is_newline(s[i]) {
        skip_newlines(s, i + 1, e)
    } else {
        i
    }
}

/// `e` moved back over trailing whitespace, but not below `st`.
pub open spec fn trim_ws_back(s: Seq<u8>, st: int, e: int) -> int
    decreases e - st,
{
    if e > st && is_ws(s[e - 1]) {
        trim_ws_back(s, st, e - 1)
    } else {
        e
    }
}

/// Three backticks start at `i`.
pub open spec fn is_fence_at(s: Seq<u8>, i: int) -> bool {
    s[i] == BACKTICK && s[i + 1] == BACKTICK && s[i + 2] == BACKTICK
}

/// Start of the payload: leading whitespace is skipped, and an opening fence
/// is skipped through the end of its line and the line breaks after it.
pub open spec fn fence_start(s: Seq<u8>) -> int {
    let n = s.len() as int;
    let a = skip_ws(s, 0, n);
    if n - a >= 3 && is_fence_at(s, a) {
        skip_newlines(s, line_end(s, a + 3, n), n)
    } else {
        a
    }
}

/// End of the payload: trailing whitespace is dropped, then a closing fence
/// and the whitespace before it.
pub open spec fn fence_end(s: Seq<u8>) -> int {
    let st = fence_start(s);
    let e1 = trim_ws_back(s, st, s.len() as int);
    if e1 - st >= 3 && is_fence_at(s, e1 - 3) {
        trim_ws_back(s, st, e1 - 3)
    } else {
        e1
    }
}

pub proof fn lemma_skip_ws_bounds(s: Seq<u8>, i: int, e: int)
    requires
        i <= e,
    ensures
        i <= skip_ws(s, i, e) <= e,
    decreases e - i,
{
    if i < e && is_ws(s[i]) {
        lemma_skip_ws_bounds(s, i + 1, e);
    }
}

pub proof fn lemma_skip_newlines_bounds(s: Seq<u8>, i: int, e: int)
    requires
        i <= e,
    ensures
        i <= skip_newlines(s, i, e) <= e,
    decreases e - i,
{
    if i < e && is_newline(s[i]) {
        lemma_skip_newlines_bounds(s, i + 1, e);
    }
}

pub proof fn lemma_trim_ws_back_bounds(s: Seq<u8>, st: int, e: int)
    requires
        st <= e,
    ensures
        st <= trim_ws_back(s, st, e) <= e,
    decreases e - st,
{
    if e > st && is_ws(s[e - 1]) {
        lemma_trim_ws_back_bounds(s, st, e - 1);
    }
}

pub proof fn lemma_fence_bounds(s: Seq<u8>)
    ensures
        0 <= fence_start(s) <= fence_end(s) <= s.len(),
{
    let n = s.len() as int;
    lemma_skip_ws_bounds(s, 0, n);
    let a = skip_ws(s, 0, n);
    if n - a >= 3 && is_fence_at(s, a) {
        lemma_line_end_bounds(s, a + 3, n);
        lemma_skip_newlines_bounds(s, line_end(s, a + 3, n), n);
    }
    let st = fence_start(s);
    lemma_trim_ws_back_bounds(s, st, n);
    let e1 = trim_ws_back(s, st, n);
    if e1 - st >= 3 && is_fence_at(s, e1 - 3) {
        lemma_trim_ws_back_bounds(s, st, e1 - 3);
    }
}

fn trim_markdown_fences(bytes: &[u8]) -> (r: (usize, usize))
    ensures
        r.0 == fence_start(bytes@),
        r.1 == fence_end(bytes@),
{
    let ghost s = bytes@;
    let ghost n = s.len() as int;
    let mut start: usize = 0;
    let mut end: usize = bytes.len();

    while start < end && is_ascii_whitespace(bytes[start])
        invariant
            s == bytes@,
            n == s.len(),
            0 <= start <= end == n,
            skip_ws(s, start as int, n) == skip_ws(s, 0, n),
        decreases end - start,
    {
        start += 1;
    }

    if end - start >= 3 && bytes[start] == BACKTICK && bytes[start + 1] == BACKTICK && bytes[start
        + 2] == BACKTICK {
        let ghost a = start as int;
        start += 3;
        while start < end && !(bytes[start] == LF || bytes[start] == CR)
            invariant
                s == bytes@,
                n == s.len(),
                a + 3 <= start <= end == n,
                line_end(s, start as int, n) == line_end(s, a + 3, n),
            decreases end - start,
        {
            start += 1;
        }
        let ghost b = start as int;
        while start < end && (bytes[start] == LF || bytes[start] == CR)
            invariant
                s == bytes@,
                n == s.len(),
                b <= start <= end == n,
                skip_newlines(s, start as int, n) == skip_newlines(s, b, n),
            decreases end - start,
        {
            start += 1;
        }
    }
    assert(start == fence_start(s));

    while end > start && is_ascii_whitespace(bytes[end - 1])
        invariant
            s == bytes@,
            n == s.len(),
            start <= end <= n,
            start == fence_start(s),
            trim_ws_back(s, start as int, end as int) == trim_ws_back(s, start as int, n),
        decreases end - start,
    {
        end -= 1;
    }

    if end - start >= 3 && bytes[end - 3] == BACKTICK && bytes[end - 2] == BACKTICK && bytes[end
        - 1] == BACKTICK {
        end -= 3;
        let ghost e2 = end as int;
        while end > start && is_ascii_whitespace(bytes[end - 1])
            invariant
                s == bytes@,
                n == s.len(),
                start <= end <= e2,
                e2 <= n,
                start == fence_start(s),
                trim_ws_back(s, start as int, end as int) == trim_ws_back(s, start as int, e2),
            decreases end - start,
        {
            end -= 1;
        }
    }
    (start, end)
}


// ---------------------------------------------------------------------------
// Trivia, tokens and the preamble scan
// ---------------------------------------------------------------------------

/// The byte under the cursor, if the cursor is inside the window.
pub open spec fn peek_at(s: Seq<u8>, p: int, e: int) -> Option<u8> {
    if 0 <= p < e {
        Some(s[p])
    } else {
        None
    }
}

/// The cursor moved past whitespace and comments.
pub open spec fn skip_trivia_from(s: Seq<u8>, p: int, e: int) -> int
    decreases e - p,
{
    if p < e && is_ws(s[p]) {
        skip_trivia_from(s, p + 1, e)
    } else if starts_comment_at(s, p, e) {
        proof {
            lemma_comment_stop_bounds(s, p, e);
        }
        skip_trivia_from(s, comment_stop(s, p, e), e)
    } else {
        p
    }
}

pub proof fn lemma_skip_trivia_bounds(s: Seq<u8>, p: int, e: int)
    ensures
        p <= skip_trivia_from(s, p, e),
        p <= e ==> skip_trivia_from(s, p, e) <= e,
    decreases e - p,
{
    if p < e && is_ws(s[p]) {
        lemma_skip_trivia_bounds(s, p + 1, e);
    } else if starts_comment_at(s, p, e) {
        lemma_comment_stop_bounds(s, p, e);
        lemma_skip_trivia_bounds(s, comment_stop(s, p, e), e);
    }
}

/// Skipping trivia a second time changes nothing.
pub proof fn lemma_skip_trivia_fixed(s: Seq<u8>, p: int, e: int)
    ensures
        skip_trivia_from(s, skip_trivia_from(s, p, e), e) == skip_trivia_from(s, p, e),
    decreases e - p,
{
    if p < e && is_ws(s[p]) {
        lemma_skip_trivia_fixed(s, p + 1, e);
    } else if starts_comment_at(s, p, e) {
        lemma_comment_stop_bounds(s, p, e);
        lemma_skip_trivia_fixed(s, comment_stop(s, p, e), e);
    }
}

/// Bytes that end a bare token: whitespace, JSON punctuation, quotes and the
/// start of a comment.
pub open spec fn ends_token(s: Seq<u8>, p: int, e: int) -> bool {
    let b = s[p];
    ||| is_ws(b)
    ||| b == COMMA || b == LBRACKET || b == RBRACKET || b == LBRACE || b == RBRACE || b == COLON
    ||| b == DQUOTE || b == SQUOTE
    ||| starts_comment_at(s, p, e)
}

/// End of the bare token that starts at `p`.
pub open spec fn token_end(s: Seq<u8>, p: int, e: int) -> int
    decreases e - p,
{
    if 0 <= p < e && !ends_token(s, p, e) {
        token_end(s, p + 1, e)
    } else {
        p
    }
}

pub proof fn lemma_token_end_bounds(s: Seq<u8>, p: int, e: int)
    requires
        0 <= p <= e,
    ensures
        p <= token_end(s, p, e) <= e,
    decreases e - p,
{
    if p < e && !ends_token(s, p, e) {
        lemma_token_end_bounds(s, p + 1, e);
    }
}

/// An apostrophe at `c` between two ASCII letters or digits, after the scan
/// start `st`, is part of a word (as in "I'm"), not a quote.
pub open spec fn word_apostrophe_at(s: Seq<u8>, st: int, c: int, e: int) -> bool {
    c > st && c + 1 < e && is_alnum(s[c - 1]) && is_alnum(s[c + 1])
}

/// The preamble scan from `c`, inside the quote `quote` if there is one: the
/// index of the first `{` or `[` outside quotes and comments, or `st` when
/// there is none.
pub open spec fn scan_structural(s: Seq<u8>, st: int, c: int, e: int, quote: Option<u8>) -> int
    decreases e - c,
{
    if c < 0 || c >= e {
        st
    } else {
        let b = s[c];
        match quote {
            Some(q) => {
                if b == BACKSLASH {
                    scan_structural(s, st, if c + 2 < e { c + 2 } else { e }, e, quote)
                } else if b == q {
                    scan_structural(s, st, c + 1, e, None)
                } else {
                    scan_structural(s, st, c + 1, e, quote)
                }
            },
            None => {
                if b == SQUOTE && word_apostrophe_at(s, st, c, e) {
                    scan_structural(s, st, c + 1, e, None)
                } else if b == DQUOTE || b == SQUOTE {
                    scan_structural(s, st, c + 1, e, Some(b))
                } else if starts_comment_at(s, c, e) {
                    proof {
                        lemma_comment_stop_bounds(s, c, e);
                    }
                    scan_structural(s, st, comment_stop(s, c, e), e, None)
                } else if b == LBRACE || b == LBRACKET {
                    c
                } else {
                    scan_structural(s, st, c + 1, e, None)
                }
            },
        }
    }
}

pub proof fn lemma_scan_structural_bounds(s: Seq<u8>, st: int, c: int, e: int, quote: Option<u8>)
    requires
        0 <= st <= c,
        st <= e,
    ensures
        st <= scan_structural(s, st, c, e, quote) <= e,
        scan_structural(s, st, c, e, quote) == st || c <= scan_structural(s, st, c, e, quote) < e,
    decreases e - c,
{
    if c < e {
        let b = s[c];
        match quote {
            Some(q) => {
                if b == BACKSLASH {
                    lemma_scan_structural_bounds(s, st, if c + 2 < e { c + 2 } else { e }, e, quote);
                } else if b == q {
                    lemma_scan_structural_bounds(s, st, c + 1, e, None);
                } else {
                    lemma_scan_structural_bounds(s, st, c + 1, e, quote);
                }
            },
            None => {
                if b == SQUOTE && word_apostrophe_at(s, st, c, e) {
                    lemma_scan_structural_bounds(s, st, c + 1, e, None);
                } else if b == DQUOTE || b == SQUOTE {
                    lemma_scan_structural_bounds(s, st, c + 1, e, Some(b));
                } else if starts_comment_at(s, c, e) {
                    lemma_comment_stop_bounds(s, c, e);
                    lemma_scan_structural_bounds(s, st, comment_stop(s, c, e), e, None);
                } else if b == LBRACE || b == LBRACKET {
                } else {
                    lemma_scan_structural_bounds(s, st, c + 1, e, None);
                }
            },
        }
    }
}

/// Where the value starts: after trivia, the first `{` or `[` outside quoted
/// text when there is one, else the first significant byte.
pub open spec fn structural_start(s: Seq<u8>, p: int, e: int) -> int {
    let p1 = skip_trivia_from(s, p, e);
    if p1 >= e {
        p1
    } else {
        scan_structural(s, p1, p1, e, None)
    }
}

/// The cursor's state: the bytes it reads, its position, and the end of the
/// window it may read.
pub struct LexerState {
    pub bytes: Seq<u8>,
    pub pos: int,
    pub end: int,
}

#[derive(Clone, Copy)]
pub struct Lexer<'a> {
    bytes: &'a [u8],
    pos: usize,
    end: usize,
}

impl<'a> View for Lexer<'a> {
    type V = LexerState;

    closed spec fn view(&self) -> LexerState {
        LexerState { bytes: self.bytes@, pos: self.pos as int, end: self.end as int }
    }
}

impl<'a> Lexer<'a> {
    /// The cursor never passes the end of its window, which lies inside the
    /// bytes.
    #[verifier::type_invariant]
    pub(crate) open spec fn inv(self) -> bool {
        0 <= self@.pos <= self@.end <= self@.bytes.len()
    }

    pub fn new(input: &'a str) -> (r: Self)
        ensures
            r@.bytes == strip_bom(encode_utf8(input@)),
            r@.pos == fence_start(r@.bytes),
            r@.end == fence_end(r@.bytes),
    {
        let all = input.as_bytes();
        let bytes = if all.len() >= 3 && all[0] == 0xEFu8 && all[1] == 0xBBu8 && all[2] == 0xBFu8 {
            &all[3..all.len()]
        } else {
            all
        };
        let (pos, end) = trim_markdown_fences(bytes);
        proof {
            lemma_fence_bounds(bytes@);
        }
        Self { bytes, pos, end }
    }

    pub fn is_eof(&self) -> (r: bool)
        ensures
            r == (self@.pos >= self@.end),
    {
        self.pos >= self.end
    }

    pub fn peek(&self) -> (r: Option<u8>)
        ensures
            r == peek_at(self@.bytes, self@.pos, self@.end),
    {
        proof {
            use_type_invariant(self);
        }
        if self.pos < self.end {
            Some(self.bytes[self.pos])
        } else {
            None
        }
    }

    pub fn next(&mut self) -> (r: Option<u8>)
        ensures
            r == peek_at(old(self)@.bytes, old(self)@.pos, old(self)@.end),
            final(self)@.bytes == old(self)@.bytes,
            final(self)@.end == old(self)@.end,
            final(self)@.pos == old(self)@.pos + if r is Some { 1int } else { 0int },
    {
        proof {
            use_type_invariant(&*self);
        }
        let byte = self.peek();
        if byte.is_some() {
            self.pos += 1;
        }
        byte
    }

    pub fn bump(&mut self) -> (r: bool)
        ensures
            r == (old(self)@.pos < old(self)@.end),
            final(self)@.bytes == old(self)@.bytes,
            final(self)@.end == old(self)@.end,
            final(self)@.pos == old(self)@.pos + if r { 1int } else { 0int },
    {
        self.next().is_some()
    }

    pub fn skip_trivia(&mut self)
        ensures
            final(self)@.bytes == old(self)@.bytes,
            final(self)@.end == old(self)@.end,
            final(self)@.pos == skip_trivia_from(old(self)@.bytes, old(self)@.pos, old(self)@.end),
    {
        proof {
            use_type_invariant(&*self);
        }
        let ghost s = self.bytes@;
        let ghost p0 = self.pos as int;
        let ghost e = self.end as int;
        loop
            invariant
                s == self.bytes@,
                e == self.end,
                s == old(self)@.bytes,
                e == old(self)@.end,
                p0 == old(self)@.pos,
                0 <= self.pos <= self.end <= s.len(),
                skip_trivia_from(s, self.pos as int, e) == skip_trivia_from(s, p0, e),
            ensures
                self.bytes@ == s,
                self.end == e,
                self.pos == skip_trivia_from(s, p0, e),
            decreases self.end - self.pos,
        {
            if self.pos >= self.end {
                return;
            }
            let byte = self.bytes[self.pos];
            if is_ascii_whitespace(byte) {
                self.pos += 1;
            } else if let Some(end) = comment_end(self.bytes, self.pos, self.end) {
                proof {
                    lemma_comment_stop_bounds(s, self.pos as int, e);
                }
                self.pos = end;
            } else {
                return;
            }
        }
    }

    pub fn consume_if(&mut self, expected: u8) -> (r: bool)
        ensures
            r == (peek_at(old(self)@.bytes, old(self)@.pos, old(self)@.end) == Some(expected)),
            final(self)@.bytes == old(self)@.bytes,
            final(self)@.end == old(self)@.end,
            final(self)@.pos == old(self)@.pos + if r { 1int } else { 0int },
    {
        proof {
            use_type_invariant(&*self);
        }
        if self.peek() == Some(expected) {
            self.pos += 1;
            return true;
        }
        false
    }

    pub fn read_bare_token(&mut self) -> (r: &'a [u8])
        ensures
            final(self)@.bytes == old(self)@.bytes,
            final(self)@.end == old(self)@.end,
            final(self)@.pos == token_end(old(self)@.bytes, old(self)@.pos, old(self)@.end),
            r@ == old(self)@.bytes.subrange(old(self)@.pos, final(self)@.pos),
    {
        proof {
            use_type_invariant(&*self);
        }
        let ghost s = self.bytes@;
        let ghost e = self.end as int;
        let start = self.pos;
        while self.pos < self.end && !self.ends_token_here()
            invariant
                s == self.bytes@,
                e == self.end,
                start <= self.pos <= self.end <= s.len(),
                token_end(s, self.pos as int, e) == token_end(s, start as int, e),
            decreases self.end - self.pos,
        {
            self.pos += 1;
        }
        &self.bytes[start..self.pos]
    }

    fn ends_token_here(&self) -> (r: bool)
        requires
            self@.pos < self@.end,
        ensures
            r == ends_token(self@.bytes, self@.pos, self@.end),
    {
        proof {
            use_type_invariant(self);
        }
        let byte = self.bytes[self.pos];
        is_ascii_whitespace(byte) || byte == COMMA || byte == LBRACKET || byte == RBRACKET || byte
            == LBRACE || byte == RBRACE || byte == COLON || byte == DQUOTE || byte == SQUOTE
            || starts_comment(self.bytes, self.pos, self.end)
    }

    // Check a possible missing-comma key without moving the real cursor.
    pub fn bare_key_follows(&self) -> (r: bool)
        ensures
            r == ({
                let s = self@.bytes;
                let e = self@.end;
                let p1 = skip_trivia_from(s, self@.pos, e);
                let p2 = token_end(s, p1, e);
                p2 > p1 && peek_at(s, skip_trivia_from(s, p2, e), e) == Some(COLON)
            }),
    {
        proof {
            use_type_invariant(self);
            lemma_skip_trivia_bounds(self@.bytes, self@.pos, self@.end);
        }
        let mut lookahead = *self;
        lookahead.skip_trivia();
        proof {
            lemma_token_end_bounds(lookahead@.bytes, lookahead@.pos, lookahead@.end);
        }
        let token = lookahead.read_bare_token();
        !(token.len() == 0) && {
            lookahead.skip_trivia();
            lookahead.peek() == Some(COLON)
        }
    }

    pub fn next_significant_byte(&self) -> (r: Option<u8>)
        ensures
            r == peek_at(self@.bytes, skip_trivia_from(self@.bytes, self@.pos, self@.end), self@.end),
    {
        let mut lookahead = *self;
        lookahead.skip_trivia();
        lookahead.peek()
    }

    fn is_word_apostrophe(&self, cursor: usize) -> (r: bool)
        requires
            cursor < self@.end,
        ensures
            r == word_apostrophe_at(self@.bytes, self@.pos, cursor as int, self@.end),
    {
        proof {
            use_type_invariant(self);
        }
        cursor > self.pos && self.end - cursor > 1 && is_ascii_alphanumeric(self.bytes[cursor - 1])
            && is_ascii_alphanumeric(self.bytes[cursor + 1])
    }

    pub fn prefer_structural_value_start(&mut self)
        ensures
            final(self)@.bytes == old(self)@.bytes,
            final(self)@.end == old(self)@.end,
            final(self)@.pos == structural_start(old(self)@.bytes, old(self)@.pos, old(self)@.end),
    {
        self.skip_trivia();
        proof {
            use_type_invariant(&*self);
        }

        if self.peek().is_none() {
            return;
        }

        let ghost s = self.bytes@;
        let ghost st = self.pos as int;
        let ghost e = self.end as int;
        let mut cursor = self.pos;
        let mut quote: Option<u8> = None;
        while cursor < self.end
            invariant
                s == self.bytes@,
                e == self.end,
                st == self.pos,
                s == old(self)@.bytes,
                e == old(self)@.end,
                st == skip_trivia_from(s, old(self)@.pos, e),
                st <= cursor <= e <= s.len(),
                scan_structural(s, st, cursor as int, e, quote) == scan_structural(s, st, st, e, None),
            decreases self.end - cursor,
        {
            let byte = self.bytes[cursor];

            if let Some(active_quote) = quote {
                if byte == BACKSLASH {
                    cursor = if self.end - cursor > 2 { cursor + 2 } else { self.end };
                    continue;
                }
                if byte == active_quote {
                    quote = None;
                }
                cursor += 1;
                continue;
            }

            if byte == DQUOTE || byte == SQUOTE {
                if byte == SQUOTE && self.is_word_apostrophe(cursor) {
                    cursor += 1;
                    continue;
                }
                quote = Some(byte);
                cursor += 1;
                continue;
            }

            if let Some(end) = comment_end(self.bytes, cursor, self.end) {
                proof {
                    lemma_comment_stop_bounds(s, cursor as int, e);
                }
                cursor = end;
                continue;
            }

            if byte == LBRACE || byte == LBRACKET {
                self.pos = cursor;
                return;
            }
            cursor += 1;
        }
    }
}

} // verus!
