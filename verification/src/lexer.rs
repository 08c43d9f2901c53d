//! Lexer of the Torque equation dialect, over the UTF-8 bytes of the source.
//!
//! `spec_lex(src, pos)` is the token that starts at the first non-blank byte
//! at or after `pos`; the `Lexer` below produces exactly these tokens.
use vstd::prelude::*;
use vstd::utf8::*;
use crate::ast::{NumLit, SpecNum};
use crate::parse::{ParseError, ParseErrorKind, perr};
use crate::text::is_digit_byte;

verus! {

// ---------------------------------------------------------------------------
// Byte classes
// ---------------------------------------------------------------------------

/// A byte that, read as a Latin-1 character, is white space
/// (tab, line feed, vertical tab, form feed, carriage return, space,
/// U+0085 and U+00A0).
pub open spec fn is_ws_byte(b: u8) -> bool {
    b == 9 || b == 10 || b == 11 || b == 12 || b == 13 || b == 32 || b == 0x85 || b == 0xA0
}

pub open spec fn is_alpha(b: u8) -> bool {
    (65 <= b <= 90) || (97 <= b <= 122)
}

pub open spec fn spec_is_ident_start(b: u8) -> bool {
    is_alpha(b) || b == 95 || b == 36
}

pub open spec fn spec_is_ident_cont(b: u8) -> bool {
    spec_is_ident_start(b) || is_digit_byte(b)
}

pub open spec fn is_hex_byte(b: u8) -> bool {
    is_digit_byte(b) || (97 <= b <= 102) || (65 <= b <= 70)
}

pub open spec fn hex_value(b: u8) -> u32 {
    if is_digit_byte(b) {
        (b - 48) as u32
    } else if b >= 97 {
        (b - 87) as u32
    } else {
        (b - 55) as u32
    }
}

/// The byte classes the lexer scans runs of.
#[derive(Clone, Copy, PartialEq, Eq, Structural)]
pub enum Class {
    Digit,
    Hex,
    Bin,
    Oct,
    IdentCont,
    NotCloseBrace,
}

pub open spec fn in_class(b: u8, k: Class) -> bool {
    match k {
        Class::Digit => is_digit_byte(b),
        Class::Hex => is_hex_byte(b),
        Class::Bin => b == 48 || b == 49,
        Class::Oct => 48 <= b <= 55,
        Class::IdentCont => spec_is_ident_cont(b),
        Class::NotCloseBrace => b != 125,
    }
}

fn in_class_exec(b: u8, k: Class) -> (r: bool)
    ensures
        r == in_class(b, k),
{
    match k {
        Class::Digit => 48 <= b && b <= 57,
        Class::Hex => (48 <= b && b <= 57) || (97 <= b && b <= 102) || (65 <= b && b <= 70),
        Class::Bin => b == 48 || b == 49,
        Class::Oct => 48 <= b && b <= 55,
        Class::IdentCont => is_ident_cont(b),
        Class::NotCloseBrace => b != 125,
    }
}

/// ASCII letter, `_` or `$`.
pub fn is_ident_start(c: u8) -> (r: bool)
    ensures
        r == spec_is_ident_start(c),
{
    (65 <= c && c <= 90) || (97 <= c && c <= 122) || c == 95 || c == 36
}

/// ASCII letter or digit, `_` or `$`.
pub fn is_ident_cont(c: u8) -> (r: bool)
    ensures
        r == spec_is_ident_cont(c),
{
    is_ident_start(c) || (48 <= c && c <= 57)
}

/// End of the run of `k`-class bytes that starts at `i`.
pub open spec fn scan(src: Seq<u8>, i: int, k: Class) -> int
    decreases src.len() - i,
{
    if 0 <= i < src.len() && in_class(src[i], k) {
        scan(src, i + 1, k)
    } else {
        i
    }
}

pub proof fn lemma_scan(src: Seq<u8>, i: int, k: Class)
    requires
        0 <= i <= src.len(),
    ensures
        i <= scan(src, i, k) <= src.len(),
        scan(src, i, k) < src.len() ==> !in_class(src[scan(src, i, k)], k),
        forall|j: int| i <= j < scan(src, i, k) ==> in_class(#[trigger] src[j], k),
    decreases src.len() - i,
{
    if i < src.len() && in_class(src[i], k) {
        lemma_scan(src, i + 1, k);
    }
}

pub(crate) fn scan_exec(src: &[u8], i: usize, k: Class) -> (j: usize)
    requires
        i <= src@.len(),
    ensures
        j == scan(src@, i as int, k),
{
    let mut j = i;
    while j < src.len() && in_class_exec(src[j], k)
        invariant
            i <= j <= src@.len(),
            scan(src@, i as int, k) == scan(src@, j as int, k),
        decreases src@.len() - j,
    {
        j += 1;
    }
    j
}

/// First position at or after `pos` that does not hold a white-space byte.
pub open spec fn skip_ws(src: Seq<u8>, pos: int) -> int
    decreases src.len() - pos,
{
    if 0 <= pos < src.len() && is_ws_byte(src[pos]) {
        skip_ws(src, pos + 1)
    } else {
        pos
    }
}

pub proof fn lemma_skip_ws(src: Seq<u8>, pos: int)
    requires
        0 <= pos <= src.len(),
    ensures
        pos <= skip_ws(src, pos) <= src.len(),
        skip_ws(src, skip_ws(src, pos)) == skip_ws(src, pos),
        skip_ws(src, pos) < src.len() ==> !is_ws_byte(src[skip_ws(src, pos)]),
    decreases src.len() - pos,
{
    if pos < src.len() && is_ws_byte(src[pos]) {
        lemma_skip_ws(src, pos + 1);
    }
}

/// Length of the UTF-8 sequence that a leading byte announces (1 for ASCII,
/// 4 from 0xF0 up, 3 from 0xE0, else 2).
pub fn utf8_len(b: u8) -> (n: usize)
    ensures
        n == spec_utf8_len(b),
{
    if b < 0x80 {
        1
    } else if b >= 0xF0 {
        4
    } else if b >= 0xE0 {
        3
    } else {
        2
    }
}

pub open spec fn spec_utf8_len(b: u8) -> int {
    if b < 0x80 {
        1
    } else if b >= 0xF0 {
        4
    } else if b >= 0xE0 {
        3
    } else {
        2
    }
}

proof fn lemma_chunk_valid(c: Seq<u8>)
    requires
        1 <= c.len() <= 4,
        c.len() == spec_utf8_len(c[0]),
    ensures
        valid_utf8(c) == valid_first_scalar(c),
{
    if valid_first_scalar(c) {
        assert(length_of_first_scalar(c) == c.len());
        assert(pop_first_scalar(c) =~= Seq::<u8>::empty());
        assert(valid_utf8(Seq::<u8>::empty()));
    }
}

/// Whether `src[i..i+n]` is valid UTF-8, for `n` the length the byte at `i`
/// announces.
fn chunk_is_valid_utf8(src: &[u8], i: usize, n: usize) -> (r: bool)
    requires
        i < src@.len(),
        i + n <= src@.len(),
        n == spec_utf8_len(src@[i as int]),
    ensures
        r == valid_utf8(src@.subrange(i as int, i + n)),
{
    let ghost c = src@.subrange(i as int, i + n);
    let b0 = src[i];
    proof {
        assert(c.len() == n);
        assert(c[0] == b0);
        lemma_chunk_valid(c);
    }
    if b0 <= 0x7f {
        proof {
            assert(valid_first_scalar(c));
        }
        true
    } else if 0xc0 <= b0 && b0 <= 0xdf {
        let b1 = src[i + 1];
        assert(c[1] == b1);
        if !(0x80 <= b1 && b1 <= 0xbf) {
            assert(!valid_leading_and_continuation_bytes_first_codepoint(c));
            false
        } else {
            let cp: u32 = (((b0 & 0x1F) as u32) << 6) | ((b1 & 0x3f) as u32);
            assert(cp == decode_first_codepoint(c));
            assert(cp <= 0x7FF) by (bit_vector)
                requires
                    cp == (((b0 & 0x1F) as u32) << 6) | ((b1 & 0x3f) as u32),
            ;
            let res = 0x80 <= cp;
            assert(res == valid_first_scalar(c));
            res
        }
    } else if 0xe0 <= b0 && b0 <= 0xef {
        let b1 = src[i + 1];
        let b2 = src[i + 2];
        assert(c[1] == b1);
        assert(c[2] == b2);
        if !(0x80 <= b1 && b1 <= 0xbf && 0x80 <= b2 && b2 <= 0xbf) {
            assert(!valid_leading_and_continuation_bytes_first_codepoint(c));
            false
        } else {
            let cp: u32 = (((b0 & 0x0F) as u32) << 12) | (((b1 & 0x3f) as u32) << 6) | ((b2
                & 0x3f) as u32);
            assert(cp == decode_first_codepoint(c));
            let res = 0x800 <= cp && !(0xD800 <= cp && cp <= 0xDFFF);
            assert(res == valid_first_scalar(c));
            res
        }
    } else if 0xf0 <= b0 && b0 <= 0xf7 {
        let b1 = src[i + 1];
        let b2 = src[i + 2];
        let b3 = src[i + 3];
        assert(c[1] == b1);
        assert(c[2] == b2);
        assert(c[3] == b3);
        if !(0x80 <= b1 && b1 <= 0xbf && 0x80 <= b2 && b2 <= 0xbf && 0x80 <= b3 && b3 <= 0xbf) {
            assert(!valid_leading_and_continuation_bytes_first_codepoint(c));
            false
        } else {
            let cp: u32 = (((b0 & 0x07) as u32) << 18) | (((b1 & 0x3f) as u32) << 12) | (((b2
                & 0x3f) as u32) << 6) | ((b3 & 0x3f) as u32);
            assert(cp == decode_first_codepoint(c));
            let res = 0x10000 <= cp && cp <= 0x10ffff && !(0xD800 <= cp && cp <= 0xDFFF);
            assert(res == valid_first_scalar(c));
            res
        }
    } else {
        assert(!valid_leading_and_continuation_bytes_first_codepoint(c));
        false
    }
}

/// Appends the UTF-8 encoding of a scalar value.
fn push_scalar(out: &mut Vec<u8>, v: u32)
    requires
        is_scalar(v),
    ensures
        final(out)@ == old(out)@ + encode_scalar(v),
{
    if v <= 0x7F {
        out.push((v & 0x7F) as u8);
    } else if v <= 0x7FF {
        out.push(0xC0 | ((v >> 6) & 0x1F) as u8);
        out.push(0x80 | (v & 0x3F) as u8);
    } else if v <= 0xFFFF {
        out.push(0xE0 | ((v >> 12) & 0x0F) as u8);
        out.push(0x80 | ((v >> 6) & 0x3F) as u8);
        out.push(0x80 | (v & 0x3F) as u8);
    } else {
        out.push(0xF0 | ((v >> 18) & 0x7) as u8);
        out.push(0x80 | ((v >> 12) & 0x3F) as u8);
        out.push(0x80 | ((v >> 6) & 0x3F) as u8);
        out.push(0x80 | (v & 0x3F) as u8);
    }
    assert(final(out)@ =~= old(out)@ + encode_scalar(v));
}

// ---------------------------------------------------------------------------
// Tokens
// ---------------------------------------------------------------------------

/// Operator tokens.
#[derive(Debug, Clone, Copy, PartialEq, Eq, Structural)]
pub enum OpKind {
    StrictEq,
    StrictNe,
    UShr,
    Eq,
    Ne,
    Le,
    Ge,
    Shl,
    Shr,
    AndAnd,
    OrOr,
    StarStar,
    Plus,
    Minus,
    Star,
    Slash,
    Percent,
    Amp,
    Pipe,
    Caret,
    Lt,
    Gt,
    Bang,
    Tilde,
}

#[derive(Debug)]
pub enum Tok {
    Num(NumLit),
    Str(Vec<u8>),
    Ident(Vec<u8>),
    ValRef(Vec<u8>),
    LParen,
    RParen,
    LBracket,
    RBracket,
    Comma,
    Colon,
    Question,
    Op(OpKind),
    Eof,
}

#[derive(Debug)]
pub struct Token {
    pub tok: Tok,
    pub start: usize,
    pub end: usize,
}

pub enum SpecTok {
    Num(SpecNum),
    Str(Seq<u8>),
    Ident(Seq<u8>),
    ValRef(Seq<u8>),
    LParen,
    RParen,
    LBracket,
    RBracket,
    Comma,
    Colon,
    Question,
    Op(OpKind),
    Eof,
}

pub struct SpecToken {
    pub tok: SpecTok,
    pub start: int,
    pub end: int,
}

impl View for Tok {
    type V = SpecTok;

    open spec fn view(&self) -> SpecTok {
        match self {
            Tok::Num(n) => SpecTok::Num(n@),
            Tok::Str(s) => SpecTok::Str(s@),
            Tok::Ident(s) => SpecTok::Ident(s@),
            Tok::ValRef(s) => SpecTok::ValRef(s@),
            Tok::LParen => SpecTok::LParen,
            Tok::RParen => SpecTok::RParen,
            Tok::LBracket => SpecTok::LBracket,
            Tok::RBracket => SpecTok::RBracket,
            Tok::Comma => SpecTok::Comma,
            Tok::Colon => SpecTok::Colon,
            Tok::Question => SpecTok::Question,
            Tok::Op(o) => SpecTok::Op(*o),
            Tok::Eof => SpecTok::Eof,
        }
    }
}

impl View for Token {
    type V = SpecToken;

    open spec fn view(&self) -> SpecToken {
        SpecToken { tok: self.tok@, start: self.start as int, end: self.end as int }
    }
}

pub open spec fn tok(t: SpecTok, start: int, end: int) -> SpecToken {
    SpecToken { tok: t, start, end }
}

pub open spec fn lex_err(pos: int, kind: ParseErrorKind) -> Result<SpecToken, ParseError> {
    Err(ParseError { pos: pos as usize, kind, in_lookup: false })
}

// ---------------------------------------------------------------------------
// Token grammar
// ---------------------------------------------------------------------------

/// A numeric literal must not run straight into an identifier character.
pub open spec fn finish_number(src: Seq<u8>, s: int, i: int, lit: SpecNum) -> Result<SpecToken, ParseError> {
    if i < src.len() && spec_is_ident_start(src[i]) {
        lex_err(i, ParseErrorKind::IdentAfterNumber)
    } else {
        Ok(tok(SpecTok::Num(lit), s, i))
    }
}

/// Numeric literal starting at `s`: `0x`/`0X` hex, `0b`/`0B` binary,
/// `0o`/`0O` octal, or decimal `digits [. digits] [e[+-]digits]` (a leading
/// `.` allowed).
pub open spec fn lex_number(src: Seq<u8>, s: int) -> Result<SpecToken, ParseError> {
    let n = src.len();
    if src[s] == 48 && s + 1 < n && (src[s + 1] == 120 || src[s + 1] == 88) {
        let j = scan(src, s + 2, Class::Hex);
        if j == s + 2 {
            lex_err(s, ParseErrorKind::MissingHexDigits)
        } else {
            finish_number(src, s, j, SpecNum::Radix(16, src.subrange(s + 2, j)))
        }
    } else if src[s] == 48 && s + 1 < n && (src[s + 1] == 98 || src[s + 1] == 66 || src[s + 1]
        == 111 || src[s + 1] == 79) {
        let bin = src[s + 1] == 98 || src[s + 1] == 66;
        let j = scan(src, s + 2, if bin { Class::Bin } else { Class::Oct });
        if j == s + 2 {
            lex_err(s, ParseErrorKind::MissingRadixDigits)
        } else {
            finish_number(src, s, j, SpecNum::Radix(if bin { 2 } else { 8 }, src.subrange(s + 2, j)))
        }
    } else {
        let i1 = scan(src, s, Class::Digit);
        let i2 = if i1 < n && src[i1] == 46 { scan(src, i1 + 1, Class::Digit) } else { i1 };
        if i2 < n && (src[i2] == 101 || src[i2] == 69) {
            let j = i2 + 1;
            let j2 = if j < n && (src[j] == 43 || src[j] == 45) { j + 1 } else { j };
            if j2 < n && is_digit_byte(src[j2]) {
                let i3 = scan(src, j2, Class::Digit);
                finish_number(src, s, i3, SpecNum::Decimal(src.subrange(s, i3)))
            } else {
                lex_err(s, ParseErrorKind::MissingExponentDigits)
            }
        } else {
            finish_number(src, s, i2, SpecNum::Decimal(src.subrange(s, i2)))
        }
    }
}

/// The byte a one-letter escape stands for (`\n`, `\t`, `\r`, `\b`, `\f`,
/// `\v`, `\0`).
pub open spec fn simple_escape(e: u8) -> Option<u8> {
    if e == 110 {
        Some(10u8)
    } else if e == 116 {
        Some(9u8)
    } else if e == 114 {
        Some(13u8)
    } else if e == 98 {
        Some(8u8)
    } else if e == 102 {
        Some(12u8)
    } else if e == 118 {
        Some(11u8)
    } else if e == 48 {
        Some(0u8)
    } else {
        None
    }
}

/// The character value of a `\uXXXX` escape: the code itself, or U+FFFD for
/// a surrogate code.
pub open spec fn unicode_escape_value(code: u32) -> u32 {
    if 0xD800 <= code <= 0xDFFF {
        0xFFFD
    } else {
        code
    }
}

pub open spec fn prepend_bytes(p: Seq<u8>, r: Result<(Seq<u8>, int), ParseError>) -> Result<(Seq<u8>, int), ParseError> {
    match r {
        Ok((c, e)) => Ok((p + c, e)),
        Err(e) => Err(e),
    }
}

pub open spec fn str_err(pos: int, kind: ParseErrorKind) -> Result<(Seq<u8>, int), ParseError> {
    Err(ParseError { pos: pos as usize, kind, in_lookup: false })
}

/// Unescaped content of a string literal from byte `i` up to its closing
/// quote, and the position after the quote. `s` is the opening quote.
pub open spec fn string_body(src: Seq<u8>, s: int, q: u8, i: int) -> Result<(Seq<u8>, int), ParseError>
    decreases src.len() - i,
{
    let n = src.len();
    if i < 0 || i >= n {
        str_err(s, ParseErrorKind::UnterminatedString)
    } else if src[i] == q {
        Ok((Seq::empty(), i + 1))
    } else if src[i] == 92 && i + 1 < n {
        let e = src[i + 1];
        let j = i + 2;
        if simple_escape(e) is Some {
            prepend_bytes(seq![simple_escape(e)->0], string_body(src, s, q, j))
        } else if e == 120 {
            if j + 1 < n && is_hex_byte(src[j]) && is_hex_byte(src[j + 1]) {
                prepend_bytes(
                    encode_scalar((hex_value(src[j]) * 16 + hex_value(src[j + 1])) as u32),
                    string_body(src, s, q, j + 2),
                )
            } else {
                str_err(i, ParseErrorKind::InvalidHexEscape)
            }
        } else if e == 117 {
            if j + 3 < n && is_hex_byte(src[j]) && is_hex_byte(src[j + 1]) && is_hex_byte(
                src[j + 2],
            ) && is_hex_byte(src[j + 3]) {
                let code = hex_value(src[j]) * 4096 + hex_value(src[j + 1]) * 256 + hex_value(
                    src[j + 2],
                ) * 16 + hex_value(src[j + 3]);
                prepend_bytes(
                    encode_scalar(unicode_escape_value(code as u32)),
                    string_body(src, s, q, j + 4),
                )
            } else {
                str_err(i, ParseErrorKind::InvalidUnicodeEscape)
            }
        } else {
            prepend_bytes(encode_scalar(e as u32), string_body(src, s, q, j))
        }
    } else {
        let len = spec_utf8_len(src[i]);
        if i + len <= n && valid_utf8(src.subrange(i, i + len)) {
            prepend_bytes(src.subrange(i, i + len), string_body(src, s, q, i + len))
        } else {
            str_err(i, ParseErrorKind::InvalidUtf8InString)
        }
    }
}

/// `val`, in any case.
pub open spec fn is_val_word(w: Seq<u8>) -> bool {
    w.len() == 3 && (w[0] == 118 || w[0] == 86) && (w[1] == 97 || w[1] == 65) && (w[2] == 108
        || w[2] == 76)
}

/// An identifier, or a `val{NAME}` reference (brace adjacent, name not empty).
pub open spec fn lex_word(src: Seq<u8>, s: int) -> Result<SpecToken, ParseError> {
    let j = scan(src, s + 1, Class::IdentCont);
    let word = src.subrange(s, j);
    if is_val_word(word) && j < src.len() && src[j] == 123 {
        let k = scan(src, j + 1, Class::NotCloseBrace);
        if k < src.len() && k > j + 1 {
            Ok(tok(SpecTok::ValRef(src.subrange(j + 1, k)), s, k + 1))
        } else {
            lex_err(s, ParseErrorKind::MalformedValRef)
        }
    } else {
        Ok(tok(SpecTok::Ident(word), s, j))
    }
}

/// `src[i..]` starts with the three bytes `a b c`.
pub open spec fn at3(src: Seq<u8>, i: int, a: u8, b: u8, c: u8) -> bool {
    i + 2 < src.len() && src[i] == a && src[i + 1] == b && src[i + 2] == c
}

pub open spec fn at2(src: Seq<u8>, i: int, a: u8, b: u8) -> bool {
    i + 1 < src.len() && src[i] == a && src[i + 1] == b
}

/// The operator at `i` by longest match, with its length.
pub open spec fn op_at(src: Seq<u8>, i: int) -> Option<(OpKind, int)> {
    if at3(src, i, 61, 61, 61) {
        Some((OpKind::StrictEq, 3))
    } else if at3(src, i, 33, 61, 61) {
        Some((OpKind::StrictNe, 3))
    } else if at3(src, i, 62, 62, 62) {
        Some((OpKind::UShr, 3))
    } else if at2(src, i, 61, 61) {
        Some((OpKind::Eq, 2))
    } else if at2(src, i, 33, 61) {
        Some((OpKind::Ne, 2))
    } else if at2(src, i, 60, 61) {
        Some((OpKind::Le, 2))
    } else if at2(src, i, 62, 61) {
        Some((OpKind::Ge, 2))
    } else if at2(src, i, 60, 60) {
        Some((OpKind::Shl, 2))
    } else if at2(src, i, 62, 62) {
        Some((OpKind::Shr, 2))
    } else if at2(src, i, 38, 38) {
        Some((OpKind::AndAnd, 2))
    } else if at2(src, i, 124, 124) {
        Some((OpKind::OrOr, 2))
    } else if at2(src, i, 42, 42) {
        Some((OpKind::StarStar, 2))
    } else if 0 <= i < src.len() {
        let c = src[i];
        if c == 43 {
            Some((OpKind::Plus, 1))
        } else if c == 45 {
            Some((OpKind::Minus, 1))
        } else if c == 42 {
            Some((OpKind::Star, 1))
        } else if c == 47 {
            Some((OpKind::Slash, 1))
        } else if c == 37 {
            Some((OpKind::Percent, 1))
        } else if c == 38 {
            Some((OpKind::Amp, 1))
        } else if c == 124 {
            Some((OpKind::Pipe, 1))
        } else if c == 94 {
            Some((OpKind::Caret, 1))
        } else if c == 60 {
            Some((OpKind::Lt, 1))
        } else if c == 62 {
            Some((OpKind::Gt, 1))
        } else if c == 33 {
            Some((OpKind::Bang, 1))
        } else if c == 126 {
            Some((OpKind::Tilde, 1))
        } else {
            None
        }
    } else {
        None
    }
}

/// Single-byte punctuation.
pub open spec fn punct_tok(c: u8) -> Option<SpecTok> {
    if c == 40 {
        Some(SpecTok::LParen)
    } else if c == 41 {
        Some(SpecTok::RParen)
    } else if c == 91 {
        Some(SpecTok::LBracket)
    } else if c == 93 {
        Some(SpecTok::RBracket)
    } else if c == 44 {
        Some(SpecTok::Comma)
    } else if c == 58 {
        Some(SpecTok::Colon)
    } else if c == 63 {
        Some(SpecTok::Question)
    } else {
        None
    }
}

/// The token starting exactly at `s` (no white space skipped).
#[verifier::opaque]
pub open spec fn lex_from(src: Seq<u8>, s: int) -> Result<SpecToken, ParseError> {
    let n = src.len();
    if s >= n {
        Ok(tok(SpecTok::Eof, s, s))
    } else {
        let c = src[s];
        if is_digit_byte(c) || (c == 46 && s + 1 < n && is_digit_byte(src[s + 1])) {
            lex_number(src, s)
        } else if c == 39 || c == 34 {
            match string_body(src, s, c, s + 1) {
                Ok((content, end)) => Ok(tok(SpecTok::Str(content), s, end)),
                Err(e) => Err(e),
            }
        } else if spec_is_ident_start(c) {
            lex_word(src, s)
        } else {
            match punct_tok(c) {
                Some(t) => Ok(tok(t, s, s + 1)),
                None => match op_at(src, s) {
                    Some((k, len)) => Ok(tok(SpecTok::Op(k), s, s + len)),
                    None => lex_err(s, ParseErrorKind::UnexpectedChar(c)),
                },
            }
        }
    }
}

/// The next token at or after `pos`.
pub open spec fn spec_lex(src: Seq<u8>, pos: int) -> Result<SpecToken, ParseError> {
    lex_from(src, skip_ws(src, pos))
}


// ---------------------------------------------------------------------------
// Executable lexer
// ---------------------------------------------------------------------------

pub open spec fn token_result(r: Result<Token, ParseError>) -> Result<SpecToken, ParseError> {
    match r {
        Ok(t) => Ok(t@),
        Err(e) => Err(e),
    }
}

pub open spec fn body_result(r: Result<(Vec<u8>, usize), ParseError>) -> Result<(Seq<u8>, int), ParseError> {
    match r {
        Ok((c, e)) => Ok((c@, e as int)),
        Err(e) => Err(e),
    }
}

proof fn lemma_prepend_assoc(a: Seq<u8>, b: Seq<u8>, r: Result<(Seq<u8>, int), ParseError>)
    ensures
        prepend_bytes(a, prepend_bytes(b, r)) == prepend_bytes(a + b, r),
{
    match r {
        Ok((c, e)) => {
            assert(a + (b + c) =~= (a + b) + c);
        },
        Err(_) => {},
    }
}

/// Copies `src[a..b]`.
pub fn copy_range(src: &[u8], a: usize, b: usize) -> (v: Vec<u8>)
    requires
        a <= b <= src@.len(),
    ensures
        v@ == src@.subrange(a as int, b as int),
{
    let mut v: Vec<u8> = Vec::new();
    let mut i = a;
    while i < b
        invariant
            a <= i <= b <= src@.len(),
            v@ == src@.subrange(a as int, i as int),
        decreases b - i,
    {
        v.push(src[i]);
        i += 1;
        assert(v@ =~= src@.subrange(a as int, i as int));
    }
    v
}

fn hex_val(b: u8) -> (v: u32)
    requires
        is_hex_byte(b),
    ensures
        v == hex_value(b),
        v < 16,
{
    if 48 <= b && b <= 57 {
        (b - 48) as u32
    } else if b >= 97 {
        (b - 87) as u32
    } else {
        (b - 55) as u32
    }
}

fn finish_number_exec(src: &[u8], s: usize, i: usize, lit: NumLit) -> (r: Result<Token, ParseError>)
    requires
        s < i <= src@.len(),
    ensures
        token_result(r) == finish_number(src@, s as int, i as int, lit@),
{
    if i < src.len() && is_ident_start(src[i]) {
        Err(perr(i, ParseErrorKind::IdentAfterNumber))
    } else {
        Ok(Token { tok: Tok::Num(lit), start: s, end: i })
    }
}

fn lex_number_exec(src: &[u8], s: usize) -> (r: Result<Token, ParseError>)
    requires
        s < src@.len(),
        is_digit_byte(src@[s as int]) || (src@[s as int] == 46 && s + 1 < src@.len()
            && is_digit_byte(src@[s + 1])),
    ensures
        token_result(r) == lex_number(src@, s as int),
{
    let n = src.len();
    if src[s] == 48 && s + 1 < n && (src[s + 1] == 120 || src[s + 1] == 88) {
        let j = scan_exec(src, s + 2, Class::Hex);
        if j == s + 2 {
            Err(perr(s, ParseErrorKind::MissingHexDigits))
        } else {
            proof { lemma_scan(src@, s + 2, Class::Hex); }
            let d = copy_range(src, s + 2, j);
            finish_number_exec(src, s, j, NumLit::Radix(16, d))
        }
    } else if src[s] == 48 && s + 1 < n && (src[s + 1] == 98 || src[s + 1] == 66 || src[s + 1]
        == 111 || src[s + 1] == 79) {
        let bin = src[s + 1] == 98 || src[s + 1] == 66;
        let k = if bin { Class::Bin } else { Class::Oct };
        let j = scan_exec(src, s + 2, k);
        if j == s + 2 {
            Err(perr(s, ParseErrorKind::MissingRadixDigits))
        } else {
            proof { lemma_scan(src@, s + 2, k); }
            let d = copy_range(src, s + 2, j);
            finish_number_exec(src, s, j, NumLit::Radix(if bin { 2 } else { 8 }, d))
        }
    } else {
        let i1 = scan_exec(src, s, Class::Digit);
        proof { lemma_scan(src@, s as int, Class::Digit); }
        let i2 = if i1 < n && src[i1] == 46 {
            proof { lemma_scan(src@, i1 + 1, Class::Digit); }
            scan_exec(src, i1 + 1, Class::Digit)
        } else {
            i1
        };
        if i2 < n && (src[i2] == 101 || src[i2] == 69) {
            let j = i2 + 1;
            let j2 = if j < n && (src[j] == 43 || src[j] == 45) { j + 1 } else { j };
            if j2 < n && 48 <= src[j2] && src[j2] <= 57 {
                let i3 = scan_exec(src, j2, Class::Digit);
                proof { lemma_scan(src@, j2 as int, Class::Digit); }
                let t = copy_range(src, s, i3);
                finish_number_exec(src, s, i3, NumLit::Decimal(t))
            } else {
                Err(perr(s, ParseErrorKind::MissingExponentDigits))
            }
        } else {
            proof {
                if is_digit_byte(src@[s as int]) {
                    assert(i1 > s);
                } else {
                    assert(i1 == s);
                    assert(i2 > s + 1);
                }
            }
            let t = copy_range(src, s, i2);
            finish_number_exec(src, s, i2, NumLit::Decimal(t))
        }
    }
}

fn simple_escape_exec(e: u8) -> (r: Option<u8>)
    ensures
        r == simple_escape(e),
{
    if e == 110 {
        Some(10u8)
    } else if e == 116 {
        Some(9u8)
    } else if e == 114 {
        Some(13u8)
    } else if e == 98 {
        Some(8u8)
    } else if e == 102 {
        Some(12u8)
    } else if e == 118 {
        Some(11u8)
    } else if e == 48 {
        Some(0u8)
    } else {
        None
    }
}

fn lex_string_body(src: &[u8], s: usize, q: u8) -> (r: Result<(Vec<u8>, usize), ParseError>)
    requires
        s < src@.len(),
    ensures
        body_result(r) == string_body(src@, s as int, q, s + 1),
        r matches Ok((_, e)) ==> s < e <= src@.len(),
{
    let n = src.len();
    let mut out: Vec<u8> = Vec::new();
    let mut i = s + 1;
    while i < n
        invariant
            n == src@.len(),
            s + 1 <= i <= n,
            string_body(src@, s as int, q, s + 1) == prepend_bytes(out@, string_body(src@, s as int, q, i as int)),
        decreases n - i,
    {
        let ghost old_out = out@;
        let c = src[i];
        if c == q {
            assert(out@ + Seq::<u8>::empty() =~= out@);
            return Ok((out, i + 1));
        }
        if c == 92 && i + 1 < n {
            let e = src[i + 1];
            let j = i + 2;
            match simple_escape_exec(e) {
                Some(b) => {
                    out.push(b);
                    proof {
                        lemma_prepend_assoc(old_out, seq![b], string_body(src@, s as int, q, j as int));
                        assert(old_out + seq![b] =~= out@);
                    }
                    i = j;
                },
                None => {
                    if e == 120 {
                        if j < n && n - j > 1 && in_class_exec(src[j], Class::Hex) && in_class_exec(src[j + 1], Class::Hex) {
                            let v = hex_val(src[j]) * 16 + hex_val(src[j + 1]);
                            push_scalar(&mut out, v);
                            proof {
                                lemma_prepend_assoc(old_out, encode_scalar(v), string_body(src@, s as int, q, j + 2));
                            }
                            i = j + 2;
                        } else {
                            return Err(perr(i, ParseErrorKind::InvalidHexEscape));
                        }
                    } else if e == 117 {
                        if j < n && n - j > 3 && in_class_exec(src[j], Class::Hex) && in_class_exec(src[j + 1], Class::Hex)
                            && in_class_exec(src[j + 2], Class::Hex) && in_class_exec(src[j + 3], Class::Hex) {
                            let code = hex_val(src[j]) * 4096 + hex_val(src[j + 1]) * 256 + hex_val(src[j + 2]) * 16
                                + hex_val(src[j + 3]);
                            let v = if 0xD800 <= code && code <= 0xDFFF { 0xFFFDu32 } else { code };
                            push_scalar(&mut out, v);
                            proof {
                                lemma_prepend_assoc(old_out, encode_scalar(v), string_body(src@, s as int, q, j + 4));
                            }
                            i = j + 4;
                        } else {
                            return Err(perr(i, ParseErrorKind::InvalidUnicodeEscape));
                        }
                    } else {
                        push_scalar(&mut out, e as u32);
                        proof {
                            lemma_prepend_assoc(old_out, encode_scalar(e as u32), string_body(src@, s as int, q, j as int));
                        }
                        i = j;
                    }
                },
            }
        } else {
            let len = utf8_len(c);
            if len <= n - i && chunk_is_valid_utf8(src, i, len) {
                let mut k = i;
                while k < i + len
                    invariant
                        n == src@.len(),
                        i <= k <= i + len <= n,
                        out@ == old_out + src@.subrange(i as int, k as int),
                    decreases i + len - k,
                {
                    out.push(src[k]);
                    k += 1;
                    assert(out@ =~= old_out + src@.subrange(i as int, k as int));
                }
                proof {
                    lemma_prepend_assoc(old_out, src@.subrange(i as int, i + len), string_body(src@, s as int, q, i + len));
                }
                i = i + len;
            } else {
                return Err(perr(i, ParseErrorKind::InvalidUtf8InString));
            }
        }
    }
    Err(perr(s, ParseErrorKind::UnterminatedString))
}

fn lex_word_exec(src: &[u8], s: usize) -> (r: Result<Token, ParseError>)
    requires
        s < src@.len(),
        spec_is_ident_start(src@[s as int]),
    ensures
        token_result(r) == lex_word(src@, s as int),
{
    let n = src.len();
    let j = scan_exec(src, s + 1, Class::IdentCont);
    proof { lemma_scan(src@, s + 1, Class::IdentCont); }
    let is_val = j - s == 3 && (src[s] == 118 || src[s] == 86) && (src[s + 1] == 97 || src[s + 1] == 65)
        && (src[s + 2] == 108 || src[s + 2] == 76);
    assert(is_val == is_val_word(src@.subrange(s as int, j as int)));
    if is_val && j < src.len() && src[j] == 123 {
        let k = scan_exec(src, j + 1, Class::NotCloseBrace);
        proof { lemma_scan(src@, j + 1, Class::NotCloseBrace); }
        if k < src.len() && k > j + 1 {
            let name = copy_range(src, j + 1, k);
            Ok(Token { tok: Tok::ValRef(name), start: s, end: k + 1 })
        } else {
            Err(perr(s, ParseErrorKind::MalformedValRef))
        }
    } else {
        let word = copy_range(src, s, j);
        Ok(Token { tok: Tok::Ident(word), start: s, end: j })
    }
}

fn op_at_exec(src: &[u8], i: usize) -> (r: Option<(OpKind, usize)>)
    requires
        i < src@.len(),
    ensures
        match r {
            Some((k, n)) => op_at(src@, i as int) == Some((k, n as int)),
            None => op_at(src@, i as int) is None,
        },
{
    let n = src.len();
    let c = src[i];
    let has1 = n - i > 1;
    let has2 = n - i > 2;
    let c1: u8 = if has1 { src[i + 1] } else { 0 };
    let c2: u8 = if has2 { src[i + 2] } else { 0 };
    if has2 && c == 61 && c1 == 61 && c2 == 61 {
        Some((OpKind::StrictEq, 3))
    } else if has2 && c == 33 && c1 == 61 && c2 == 61 {
        Some((OpKind::StrictNe, 3))
    } else if has2 && c == 62 && c1 == 62 && c2 == 62 {
        Some((OpKind::UShr, 3))
    } else if has1 && c == 61 && c1 == 61 {
        Some((OpKind::Eq, 2))
    } else if has1 && c == 33 && c1 == 61 {
        Some((OpKind::Ne, 2))
    } else if has1 && c == 60 && c1 == 61 {
        Some((OpKind::Le, 2))
    } else if has1 && c == 62 && c1 == 61 {
        Some((OpKind::Ge, 2))
    } else if has1 && c == 60 && c1 == 60 {
        Some((OpKind::Shl, 2))
    } else if has1 && c == 62 && c1 == 62 {
        Some((OpKind::Shr, 2))
    } else if has1 && c == 38 && c1 == 38 {
        Some((OpKind::AndAnd, 2))
    } else if has1 && c == 124 && c1 == 124 {
        Some((OpKind::OrOr, 2))
    } else if has1 && c == 42 && c1 == 42 {
        Some((OpKind::StarStar, 2))
    } else if c == 43 {
        Some((OpKind::Plus, 1))
    } else if c == 45 {
        Some((OpKind::Minus, 1))
    } else if c == 42 {
        Some((OpKind::Star, 1))
    } else if c == 47 {
        Some((OpKind::Slash, 1))
    } else if c == 37 {
        Some((OpKind::Percent, 1))
    } else if c == 38 {
        Some((OpKind::Amp, 1))
    } else if c == 124 {
        Some((OpKind::Pipe, 1))
    } else if c == 94 {
        Some((OpKind::Caret, 1))
    } else if c == 60 {
        Some((OpKind::Lt, 1))
    } else if c == 62 {
        Some((OpKind::Gt, 1))
    } else if c == 33 {
        Some((OpKind::Bang, 1))
    } else if c == 126 {
        Some((OpKind::Tilde, 1))
    } else {
        None
    }
}

fn punct_exec(c: u8) -> (r: Option<Tok>)
    ensures
        match r {
            Some(t) => punct_tok(c) == Some(t@),
            None => punct_tok(c) is None,
        },
{
    if c == 40 {
        Some(Tok::LParen)
    } else if c == 41 {
        Some(Tok::RParen)
    } else if c == 91 {
        Some(Tok::LBracket)
    } else if c == 93 {
        Some(Tok::RBracket)
    } else if c == 44 {
        Some(Tok::Comma)
    } else if c == 58 {
        Some(Tok::Colon)
    } else if c == 63 {
        Some(Tok::Question)
    } else {
        None
    }
}

/// Lexes the token that starts exactly at `s`.
fn lex_from_exec(src: &[u8], s: usize) -> (r: Result<Token, ParseError>)
    requires
        s <= src@.len(),
    ensures
        token_result(r) == lex_from(src@, s as int),
{
    reveal(lex_from);
    let n = src.len();
    if s >= n {
        return Ok(Token { tok: Tok::Eof, start: s, end: s });
    }
    let c = src[s];
    if (48 <= c && c <= 57) || (c == 46 && s + 1 < n && 48 <= src[s + 1] && src[s + 1] <= 57) {
        lex_number_exec(src, s)
    } else if c == 39 || c == 34 {
        match lex_string_body(src, s, c) {
            Ok((content, end)) => Ok(Token { tok: Tok::Str(content), start: s, end }),
            Err(e) => Err(e),
        }
    } else if is_ident_start(c) {
        lex_word_exec(src, s)
    } else {
        match punct_exec(c) {
            Some(t) => Ok(Token { tok: t, start: s, end: s + 1 }),
            None => match op_at_exec(src, s) {
                Some((k, len)) => Ok(Token { tok: Tok::Op(k), start: s, end: s + len }),
                None => Err(perr(s, ParseErrorKind::UnexpectedChar(c))),
            },
        }
    }
}

fn is_ws_exec(b: u8) -> (r: bool)
    ensures
        r == is_ws_byte(b),
{
    b == 9 || b == 10 || b == 11 || b == 12 || b == 13 || b == 32 || b == 0x85 || b == 0xA0
}

/// First position at or after `pos` that is not white space.
fn skip_ws_exec(src: &[u8], pos: usize) -> (p: usize)
    requires
        pos <= src@.len(),
    ensures
        p == skip_ws(src@, pos as int),
{
    let mut p = pos;
    while p < src.len() && is_ws_exec(src[p])
        invariant
            pos <= p <= src@.len(),
            skip_ws(src@, pos as int) == skip_ws(src@, p as int),
        decreases src@.len() - p,
    {
        p += 1;
    }
    p
}

/// Token bounds: a token lies within the source, and every token but
/// end-of-input is non-empty.
pub proof fn lemma_lex_bounds(src: Seq<u8>, pos: int)
    requires
        0 <= pos <= src.len(),
    ensures
        spec_lex(src, pos) matches Ok(t) ==> {
            &&& t.start == skip_ws(src, pos)
            &&& pos <= t.start <= t.end <= src.len()
            &&& (t.tok is Eof <==> t.start == t.end)
            &&& (t.tok is Eof ==> t.start == src.len())
            &&& (t.tok matches SpecTok::Ident(w) ==> w == src.subrange(t.start, t.end))
        },
        spec_lex(src, skip_ws(src, pos)) == spec_lex(src, pos),
{
    reveal(lex_from);
    lemma_skip_ws(src, pos);
    let s = skip_ws(src, pos);
    if s < src.len() {
        let c = src[s];
        if is_digit_byte(c) || (c == 46 && s + 1 < src.len() && is_digit_byte(src[s + 1])) {
            lemma_scan(src, s, Class::Digit);
            if s + 2 <= src.len() {
                lemma_scan(src, s + 2, Class::Hex);
                lemma_scan(src, s + 2, Class::Bin);
                lemma_scan(src, s + 2, Class::Oct);
            }
            let i1 = scan(src, s, Class::Digit);
            if i1 < src.len() {
                lemma_scan(src, i1 + 1, Class::Digit);
            }
            let i2 = if i1 < src.len() && src[i1] == 46 { scan(src, i1 + 1, Class::Digit) } else { i1 };
            if i2 < src.len() && (src[i2] == 101 || src[i2] == 69) {
                let j = i2 + 1;
                let j2 = if j < src.len() && (src[j] == 43 || src[j] == 45) { j + 1 } else { j };
                if j2 < src.len() {
                    lemma_scan(src, j2, Class::Digit);
                }
            }
        } else if c == 39 || c == 34 {
            lemma_string_body_bounds(src, s, c, s + 1);
        } else if spec_is_ident_start(c) {
            lemma_scan(src, s + 1, Class::IdentCont);
            let j = scan(src, s + 1, Class::IdentCont);
            if j < src.len() {
                lemma_scan(src, j + 1, Class::NotCloseBrace);
            }
        }
    }
}

/// A `(` token is the single byte `(`.
pub proof fn lemma_lparen(src: Seq<u8>, pos: int)
    requires
        0 <= pos <= src.len(),
        spec_lex(src, pos) matches Ok(t) && t.tok is LParen,
    ensures
        spec_lex(src, pos) matches Ok(t) && t.end == t.start + 1 && 0 <= t.start < src.len()
            && src[t.start] == 40,
{
    reveal(lex_from);
    lemma_skip_ws(src, pos);
    lemma_lex_bounds(src, pos);
}


/// String-literal errors lie within the source.
proof fn lemma_string_body_err(src: Seq<u8>, s: int, q: u8, i: int)
    requires
        0 <= s < src.len() <= usize::MAX,
        s < i,
    ensures
        string_body(src, s, q, i) matches Err(e) ==> e.pos <= src.len() && !e.in_lookup,
    decreases src.len() - i,
{
    let n = src.len();
    if 0 <= i < n && src[i] != q {
        if src[i] == 92 && i + 1 < n {
            let e = src[i + 1];
            let j = i + 2;
            if simple_escape(e) is Some {
                lemma_string_body_err(src, s, q, j);
            } else if e == 120 {
                if j + 1 < n && is_hex_byte(src[j]) && is_hex_byte(src[j + 1]) {
                    lemma_string_body_err(src, s, q, j + 2);
                }
            } else if e == 117 {
                if j + 3 < n && is_hex_byte(src[j]) && is_hex_byte(src[j + 1]) && is_hex_byte(
                    src[j + 2],
                ) && is_hex_byte(src[j + 3]) {
                    lemma_string_body_err(src, s, q, j + 4);
                }
            } else {
                lemma_string_body_err(src, s, q, j);
            }
        } else {
            let len = spec_utf8_len(src[i]);
            if i + len <= n && valid_utf8(src.subrange(i, i + len)) {
                lemma_string_body_err(src, s, q, i + len);
            }
        }
    }
}

/// Lexer errors lie within the source and are not marked as LOOKUP
/// argument errors.
pub proof fn lemma_lex_err(src: Seq<u8>, pos: int)
    requires
        0 <= pos <= src.len() <= usize::MAX,
    ensures
        spec_lex(src, pos) matches Err(e) ==> e.pos <= src.len() && !e.in_lookup,
{
    reveal(lex_from);
    lemma_skip_ws(src, pos);
    lemma_lex_bounds(src, pos);
    let s = skip_ws(src, pos);
    if s < src.len() {
        let c = src[s];
        if is_digit_byte(c) || (c == 46 && s + 1 < src.len() && is_digit_byte(src[s + 1])) {
            lemma_scan(src, s, Class::Digit);
            if s + 2 <= src.len() {
                lemma_scan(src, s + 2, Class::Hex);
                lemma_scan(src, s + 2, Class::Bin);
                lemma_scan(src, s + 2, Class::Oct);
            }
            let i1 = scan(src, s, Class::Digit);
            if i1 < src.len() {
                lemma_scan(src, i1 + 1, Class::Digit);
            }
            let i2 = if i1 < src.len() && src[i1] == 46 { scan(src, i1 + 1, Class::Digit) } else { i1 };
            if i2 < src.len() && (src[i2] == 101 || src[i2] == 69) {
                let j = i2 + 1;
                let j2 = if j < src.len() && (src[j] == 43 || src[j] == 45) { j + 1 } else { j };
                if j2 < src.len() {
                    lemma_scan(src, j2, Class::Digit);
                }
            }
        } else if c == 39 || c == 34 {
            lemma_string_body_err(src, s, c, s + 1);
        }
    }
}

pub proof fn lemma_string_body_bounds(src: Seq<u8>, s: int, q: u8, i: int)
    requires
        0 <= s < i,
    ensures
        string_body(src, s, q, i) matches Ok((_, e)) ==> i < e <= src.len(),
    decreases src.len() - i,
{
    if 0 <= i < src.len() && src[i] != q {
        let n = src.len();
        if src[i] == 92 && i + 1 < n {
            lemma_string_body_bounds(src, s, q, i + 2);
            if i + 4 <= src.len() {
                lemma_string_body_bounds(src, s, q, i + 4);
            }
            if i + 6 <= src.len() {
                lemma_string_body_bounds(src, s, q, i + 6);
            }
        } else if i + spec_utf8_len(src[i]) <= src.len() {
            lemma_string_body_bounds(src, s, q, i + spec_utf8_len(src[i]));
        }
    }
}

/// Lexes the next token at or after `pos`.
pub fn lex_at(src: &[u8], pos: usize) -> (r: Result<Token, ParseError>)
    requires
        pos <= src@.len(),
    ensures
        token_result(r) == spec_lex(src@, pos as int),
        r matches Ok(t) ==> pos <= t.start <= t.end <= src@.len(),
{
    let p = skip_ws_exec(src, pos);
    proof {
        lemma_skip_ws(src@, pos as int);
        lemma_lex_bounds(src@, pos as int);
    }
    lex_from_exec(src, p)
}


// ---------------------------------------------------------------------------
// Token stream with one token of lookahead
// ---------------------------------------------------------------------------

/// Kind of a token, without its payload.
#[derive(Debug, Clone, Copy, PartialEq, Eq, Structural)]
pub enum TokClass {
    Num,
    Str,
    Ident,
    ValRef,
    LParen,
    RParen,
    LBracket,
    RBracket,
    Comma,
    Colon,
    Question,
    Op(OpKind),
    Eof,
}

pub open spec fn class_of(t: SpecTok) -> TokClass {
    match t {
        SpecTok::Num(_) => TokClass::Num,
        SpecTok::Str(_) => TokClass::Str,
        SpecTok::Ident(_) => TokClass::Ident,
        SpecTok::ValRef(_) => TokClass::ValRef,
        SpecTok::LParen => TokClass::LParen,
        SpecTok::RParen => TokClass::RParen,
        SpecTok::LBracket => TokClass::LBracket,
        SpecTok::RBracket => TokClass::RBracket,
        SpecTok::Comma => TokClass::Comma,
        SpecTok::Colon => TokClass::Colon,
        SpecTok::Question => TokClass::Question,
        SpecTok::Op(k) => TokClass::Op(k),
        SpecTok::Eof => TokClass::Eof,
    }
}

fn class_exec(t: &Tok) -> (c: TokClass)
    ensures
        c == class_of(t@),
{
    match t {
        Tok::Num(_) => TokClass::Num,
        Tok::Str(_) => TokClass::Str,
        Tok::Ident(_) => TokClass::Ident,
        Tok::ValRef(_) => TokClass::ValRef,
        Tok::LParen => TokClass::LParen,
        Tok::RParen => TokClass::RParen,
        Tok::LBracket => TokClass::LBracket,
        Tok::RBracket => TokClass::RBracket,
        Tok::Comma => TokClass::Comma,
        Tok::Colon => TokClass::Colon,
        Tok::Question => TokClass::Question,
        Tok::Op(k) => TokClass::Op(*k),
        Tok::Eof => TokClass::Eof,
    }
}

/// Kind and bounds of a peeked token.
#[derive(Debug, Clone, Copy)]
pub struct TokInfo {
    pub class: TokClass,
    pub start: usize,
    pub end: usize,
}

/// `info` describes the token `spec_lex` finds at `pos`.
pub open spec fn describes(src: Seq<u8>, pos: int, info: TokInfo) -> bool {
    spec_lex(src, pos) matches Ok(t) && class_of(t.tok) == info.class && t.start == info.start
        && t.end == info.end
}

/// The token stream over `src`, with at most one token peeked. A peeked
/// token is kept with the position it was lexed from.
pub struct Lexer<'s> {
    pub src: &'s [u8],
    pub pos: usize,
    pub peeked: Option<(Token, usize)>,
}

impl<'s> Lexer<'s> {
    /// Position the next token is lexed from.
    pub open spec fn lpos(&self) -> int {
        match self.peeked {
            Some((_, origin)) => origin as int,
            None => self.pos as int,
        }
    }

    pub open spec fn wf(&self) -> bool {
        &&& self.pos <= self.src@.len()
        &&& match self.peeked {
            Some((t, origin)) => {
                &&& token_result(Ok(t)) == spec_lex(self.src@, origin as int)
                &&& t.end == self.pos
                &&& origin <= t.start <= t.end
            },
            None => true,
        }
    }

    pub fn new(src: &'s [u8]) -> (l: Self)
        ensures
            l.wf(),
            l.src == src,
            l.lpos() == 0,
    {
        Lexer { src, pos: 0, peeked: None }
    }

    /// The next token, left in place.
    pub fn peek(&mut self) -> (r: Result<TokInfo, ParseError>)
        requires
            old(self).wf(),
        ensures
            final(self).src == old(self).src,
            match r {
                Ok(info) => describes(old(self).src@, old(self).lpos(), info) && final(self).wf()
                    && final(self).lpos() == old(self).lpos() && final(self).peeked is Some,
                Err(e) => spec_lex(old(self).src@, old(self).lpos()) == Err::<SpecToken, ParseError>(e),
            },
    {
        match &self.peeked {
            Some((t, _)) => {
                return Ok(TokInfo { class: class_exec(&t.tok), start: t.start, end: t.end });
            },
            None => {},
        }
        let origin = self.pos;
        match lex_at(self.src, origin) {
            Ok(t) => {
                let info = TokInfo { class: class_exec(&t.tok), start: t.start, end: t.end };
                self.pos = t.end;
                self.peeked = Some((t, origin));
                Ok(info)
            },
            Err(e) => Err(e),
        }
    }

    /// The next token, consumed.
    pub fn next(&mut self) -> (r: Result<Token, ParseError>)
        requires
            old(self).wf(),
        ensures
            final(self).src == old(self).src,
            token_result(r) == spec_lex(old(self).src@, old(self).lpos()),
            r matches Ok(t) ==> final(self).wf() && final(self).lpos() == t.end && final(self).peeked is None
                && old(self).lpos() <= t.start <= t.end <= old(self).src@.len(),
    {
        match self.peeked.take() {
            Some((t, origin)) => {
                proof {
                    lemma_lex_bounds(self.src@, origin as int);
                }
                Ok(t)
            },
            None => {
                let r = lex_at(self.src, self.pos);
                match r {
                    Ok(t) => {
                        self.pos = t.end;
                        Ok(t)
                    },
                    Err(e) => Err(e),
                }
            },
        }
    }

    /// Moves to `pos`, dropping any peeked token.
    pub fn seek(&mut self, pos: usize)
        requires
            pos <= old(self).src@.len(),
        ensures
            final(self).src == old(self).src,
            final(self).wf(),
            final(self).lpos() == pos,
    {
        self.pos = pos;
        self.peeked = None;
    }
}

} // verus!
