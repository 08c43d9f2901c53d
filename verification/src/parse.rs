//! Hand-rolled Pratt parser for the Torque equation dialect.
use vstd::prelude::*;
use vstd::string::*;
use vstd::utf8::*;
use crate::ast::{Ast, BinOp, Expr, NumLit, Span, SpecExpr, SpecNum, UnOp, view_exprs};
use crate::lexer::{lemma_lparen, Lexer, OpKind, SpecTok, SpecToken, Tok, TokClass, TokInfo, class_of, describes, spec_lex, lemma_lex_bounds, token_result, copy_range};
use crate::lookup::{lookup_call_text, lookup_text};

verus! {

/// A punctuation token where an operand was expected.
#[derive(Debug, Clone, Copy, PartialEq, Eq, Structural)]
pub enum Punct {
    RParen,
    RBracket,
    Comma,
    Colon,
    Question,
    Op(OpKind),
}

/// What went wrong while parsing.
#[derive(Debug, Clone, Copy, PartialEq, Eq, Structural)]
pub enum ParseErrorKind {
    UnexpectedChar(u8),
    MissingHexDigits,
    MissingRadixDigits,
    MissingExponentDigits,
    IdentAfterNumber,
    InvalidHexEscape,
    InvalidUnicodeEscape,
    InvalidUtf8InString,
    UnterminatedString,
    MalformedValRef,
    TooDeep,
    TrailingInput,
    ExpectedThen,
    EmptyIfCondition,
    EmptyThenBranch,
    ExpectedTernaryColon,
    UnaryPowOperand,
    UnexpectedEnd,
    UnexpectedToken(Punct),
    ExpectedArgSeparator,
    UnbalancedLookup,
    InvalidLookupArgs,
    ExpectedGroupClose,
    ExpectedBracketSeparator,
}

/// Parse error with byte position into the source handed to `compile`.
/// `in_lookup` marks an error found inside the re-parsed argument text of a
/// LOOKUP/CLOSEST call; its position is then the start of that call.
#[derive(Debug, Clone, Copy, PartialEq, Eq, Structural)]
pub struct ParseError {
    pub pos: usize,
    pub kind: ParseErrorKind,
    pub in_lookup: bool,
}

/// A parse error at `pos`.
pub fn perr(pos: usize, kind: ParseErrorKind) -> (e: ParseError)
    ensures
        e == (ParseError { pos, kind, in_lookup: false }),
{
    ParseError { pos, kind, in_lookup: false }
}


// ---------------------------------------------------------------------------
// Grammar
// ---------------------------------------------------------------------------

/// Nesting limit of the parser.
pub const MAX_DEPTH: u32 = 200;

/// Parser mode: LOOKUP/CLOSEST argument segmentation (off while re-reading
/// segmented argument text), and raw-JS mode (the string argument of
/// ZEROREF): no colon separators, no natural IF, lazy `? :`.
#[derive(Debug, Clone, Copy, PartialEq, Eq, Structural)]
pub struct Mode {
    pub lookup_special: bool,
    pub js_mode: bool,
}

pub type PRes = Result<(SpecExpr, int), ParseError>;

pub type PList = Result<(Seq<SpecExpr>, int), ParseError>;

pub open spec fn err_at(pos: int, kind: ParseErrorKind) -> ParseError {
    ParseError { pos: pos as usize, kind, in_lookup: false }
}

/// Positions only move forward; a parse result that would move backwards
/// cannot arise (the grammar below is total only with this guard).
pub open spec fn fwd(a: int, b: int, n: int) -> bool {
    0 <= a <= b <= n
}

pub open spec fn stuck(pos: int) -> ParseError {
    err_at(pos, ParseErrorKind::UnexpectedEnd)
}

pub open spec fn lk(m: Mode) -> int {
    if m.lookup_special { 1 } else { 0 }
}

/// Binary operator of a token, with its left binding power and whether it
/// is right-associative.
pub open spec fn binop_info(t: SpecTok) -> Option<(BinOp, int, bool)> {
    match t {
        SpecTok::Op(k) => match k {
            OpKind::OrOr => Some((BinOp::Or, 1, false)),
            OpKind::AndAnd => Some((BinOp::And, 2, false)),
            OpKind::Pipe => Some((BinOp::BitOr, 3, false)),
            OpKind::Caret => Some((BinOp::BitXor, 4, false)),
            OpKind::Amp => Some((BinOp::BitAnd, 5, false)),
            OpKind::Eq => Some((BinOp::EqLoose, 6, false)),
            OpKind::Ne => Some((BinOp::NeLoose, 6, false)),
            OpKind::StrictEq => Some((BinOp::EqStrict, 6, false)),
            OpKind::StrictNe => Some((BinOp::NeStrict, 6, false)),
            OpKind::Lt => Some((BinOp::Lt, 7, false)),
            OpKind::Gt => Some((BinOp::Gt, 7, false)),
            OpKind::Le => Some((BinOp::Le, 7, false)),
            OpKind::Ge => Some((BinOp::Ge, 7, false)),
            OpKind::Shl => Some((BinOp::Shl, 8, false)),
            OpKind::Shr => Some((BinOp::Shr, 8, false)),
            OpKind::UShr => Some((BinOp::UShr, 8, false)),
            OpKind::Plus => Some((BinOp::Add, 9, false)),
            OpKind::Minus => Some((BinOp::Sub, 9, false)),
            OpKind::Star => Some((BinOp::Mul, 10, false)),
            OpKind::Slash => Some((BinOp::Div, 10, false)),
            OpKind::Percent => Some((BinOp::Mod, 10, false)),
            OpKind::StarStar => Some((BinOp::Pow, 11, true)),
            _ => None,
        },
        _ => None,
    }
}

/// Binding power of the binary operator spelled by `k` (0 when `k` is not
/// one).
pub open spec fn bp_of(k: OpKind) -> int {
    match binop_info(SpecTok::Op(k)) {
        Some((_, bp, _)) => bp,
        None => 0,
    }
}

/// Law: of the binary operators only `**` is right-associative; every
/// other one groups to the left (`a - b - c` is `(a - b) - c`).
pub proof fn lemma_only_pow_is_right_associative(t: SpecTok)
    ensures
        binop_info(t) matches Some((op, _, right_assoc)) ==> (right_assoc <==> op == BinOp::Pow),
        binop_info(t) matches Some((op, _, _)) ==> (op == BinOp::Pow <==> t == SpecTok::Op(
            OpKind::StarStar,
        )),
{
}

/// Law: the binary operators bind as in JavaScript, from tightest to
/// loosest: `**`; `* / %`; `+ -`; `<< >> >>>`; `< > <= >=`;
/// `== != === !==`; `&`; `^`; `|`; `&&`; `||`.
pub proof fn lemma_js_precedence()
    ensures
        bp_of(OpKind::StarStar) > bp_of(OpKind::Star),
        bp_of(OpKind::Star) == bp_of(OpKind::Slash) == bp_of(OpKind::Percent),
        bp_of(OpKind::Star) > bp_of(OpKind::Plus),
        bp_of(OpKind::Plus) == bp_of(OpKind::Minus),
        bp_of(OpKind::Plus) > bp_of(OpKind::Shl),
        bp_of(OpKind::Shl) == bp_of(OpKind::Shr) == bp_of(OpKind::UShr),
        bp_of(OpKind::Shl) > bp_of(OpKind::Lt),
        bp_of(OpKind::Lt) == bp_of(OpKind::Gt) == bp_of(OpKind::Le) == bp_of(OpKind::Ge),
        bp_of(OpKind::Lt) > bp_of(OpKind::Eq),
        bp_of(OpKind::Eq) == bp_of(OpKind::Ne) == bp_of(OpKind::StrictEq) == bp_of(
            OpKind::StrictNe,
        ),
        bp_of(OpKind::Eq) > bp_of(OpKind::Amp),
        bp_of(OpKind::Amp) > bp_of(OpKind::Caret),
        bp_of(OpKind::Caret) > bp_of(OpKind::Pipe),
        bp_of(OpKind::Pipe) > bp_of(OpKind::AndAnd),
        bp_of(OpKind::AndAnd) > bp_of(OpKind::OrOr),
        bp_of(OpKind::OrOr) > 0,
        bp_of(OpKind::Bang) == 0 && bp_of(OpKind::Tilde) == 0,
{
}

/// Prefix operator of a token.
pub open spec fn unop_of(t: SpecTok) -> Option<UnOp> {
    match t {
        SpecTok::Op(OpKind::Minus) => Some(UnOp::Neg),
        SpecTok::Op(OpKind::Plus) => Some(UnOp::Plus),
        SpecTok::Op(OpKind::Bang) => Some(UnOp::Not),
        SpecTok::Op(OpKind::Tilde) => Some(UnOp::BitNot),
        _ => None,
    }
}

/// The punctuation a token stands for when it appears where an operand is
/// expected.
pub open spec fn punct_of(t: SpecTok) -> Punct {
    match t {
        SpecTok::RParen => Punct::RParen,
        SpecTok::RBracket => Punct::RBracket,
        SpecTok::Comma => Punct::Comma,
        SpecTok::Colon => Punct::Colon,
        SpecTok::Op(k) => Punct::Op(k),
        _ => Punct::Question,
    }
}

/// The string holds a `val{` marker (any case) — only looked for in strings
/// of five bytes or more, at offsets up to the length minus four.
pub open spec fn spec_contains_val_marker(b: Seq<u8>) -> bool {
    b.len() >= 5 && exists|i: int|
        0 <= i < b.len() - 3 && #[trigger] is_val_marker_at(b, i)
}

pub open spec fn is_val_marker_at(b: Seq<u8>, i: int) -> bool {
    (b[i] == 118 || b[i] == 86) && (b[i + 1] == 97 || b[i + 1] == 65) && (b[i + 2] == 108 || b[i
        + 2] == 76) && b[i + 3] == 123
}

/// ASCII upper case.
pub open spec fn ascii_upper(w: Seq<u8>) -> Seq<u8> {
    Seq::new(w.len(), |i: int| if 97 <= w[i] <= 122 { (w[i] - 32) as u8 } else { w[i] })
}

/// The call names that are case-insensitive in the dialect (compared in
/// upper case).
pub open spec fn is_canon_name(w: Seq<u8>) -> bool {
    ||| w == "AVG".spec_bytes()
    ||| w == "BARO".spec_bytes()
    ||| w == "BIT".spec_bytes()
    ||| w == "BITSELECT".spec_bytes()
    ||| w == "BITVALUE".spec_bytes()
    ||| w == "CLOSEST".spec_bytes()
    ||| w == "EWMAF".spec_bytes()
    ||| w == "FLOAT32".spec_bytes()
    ||| w == "FLOAT64".spec_bytes()
    ||| w == "IFANY".spec_bytes()
    ||| w == "INT16".spec_bytes()
    ||| w == "INT24".spec_bytes()
    ||| w == "INT32".spec_bytes()
    ||| w == "LOG1P".spec_bytes()
    ||| w == "RANDOM".spec_bytes()
    ||| w == "RAVG".spec_bytes()
    ||| w == "RDLY".spec_bytes()
    ||| w == "SIGNED".spec_bytes()
    ||| w == "SIGNED8".spec_bytes()
    ||| w == "SIGNED16".spec_bytes()
    ||| w == "SIGNED24".spec_bytes()
    ||| w == "SIGNED32".spec_bytes()
    ||| w == "TAVG".spec_bytes()
    ||| w == "TDLY".spec_bytes()
    ||| w == "TOT".spec_bytes()
    ||| w == "LOOKUP".spec_bytes()
}

/// Name a call is recorded under: canonical upper case for the
/// case-insensitive names, as written otherwise.
pub open spec fn call_name(w: Seq<u8>) -> Seq<u8> {
    if is_canon_name(ascii_upper(w)) {
        ascii_upper(w)
    } else {
        w
    }
}

pub open spec fn mk_seq(items: Seq<SpecExpr>) -> SpecExpr {
    if items.len() == 1 {
        items[0]
    } else {
        SpecExpr::Sequence(items)
    }
}

/// Index of the `)` matching an already-open `(` at nesting `depth`, by a
/// plain parenthesis count from `i` (quotes are not special).
pub open spec fn match_paren(src: Seq<u8>, i: int, depth: int) -> Option<int>
    decreases src.len() - i,
{
    if i < 0 || i >= src.len() {
        None
    } else {
        let d = if src[i] == 40 { depth + 1 } else if src[i] == 41 { depth - 1 } else { depth };
        if d == 0 {
            Some(i)
        } else {
            match_paren(src, i + 1, d)
        }
    }
}

/// An error from re-read LOOKUP/CLOSEST argument text, placed at the call.
pub open spec fn spec_reloc(e: ParseError, base: int) -> ParseError {
    ParseError { pos: base as usize, kind: e.kind, in_lookup: true }
}

/// An error from re-read LOOKUP/CLOSEST argument text, placed at the call.
pub fn reloc(e: ParseError, base: usize) -> (r: ParseError)
    ensures
        r == spec_reloc(e, base as int),
{
    ParseError { pos: base, kind: e.kind, in_lookup: true }
}

/// In valid UTF-8, the position right after an ASCII byte starts a
/// character.
pub proof fn lemma_boundary_after_ascii(b: Seq<u8>, k: int)
    requires
        valid_utf8(b),
        0 < k <= b.len(),
        b[k - 1] < 0x80,
    ensures
        is_char_boundary(b, k),
{
    if k == b.len() {
        is_char_boundary_start_end_of_seq(b);
    } else {
        is_char_boundary_iff_not_is_continuation_byte(b, k - 1);
        valid_utf8_split(b, k - 1);
        let s = b.subrange(k - 1, b.len() as int);
        assert(s[0] == b[k - 1]);
        let t = pop_first_scalar(s);
        assert(t =~= b.subrange(k, b.len() as int));
        assert(valid_utf8(t));
        assert(t[0] == b[k]);
        assert(valid_first_scalar(t));
        is_char_boundary_iff_not_is_continuation_byte(b, k);
    }
}

/// Source bytes of the re-read argument text of a LOOKUP/CLOSEST call whose
/// arguments are `src[a..b]`.
#[verifier::opaque]
pub open spec fn lookup_source(src: Seq<u8>, a: int, b: int) -> Seq<u8> {
    encode_utf8(lookup_text(decode_utf8(src.subrange(a, b))))
}

/// Expression (with the nesting check).
pub open spec fn p_expr(src: Seq<u8>, m: Mode, pos: int, depth: int) -> PRes
    decreases lk(m), src.len() - pos, 9int,
{
    match spec_lex(src, pos) {
        Err(e) => Err(e),
        Ok(t) => if depth + 1 > MAX_DEPTH {
            Err(err_at(t.start, ParseErrorKind::TooDeep))
        } else {
            p_ternary(src, m, pos, depth + 1)
        },
    }
}

/// `cond ? a : b` — an IF call in the dialect, a real ternary in raw JS.
pub open spec fn p_ternary(src: Seq<u8>, m: Mode, pos: int, depth: int) -> PRes
    decreases lk(m), src.len() - pos, 8int,
{
    match p_binary(src, m, pos, depth, 0) {
        Err(e) => Err(e),
        Ok((c, p1)) => if !fwd(pos, p1, src.len() as int) {
            Err(stuck(p1))
        } else {
            match spec_lex(src, p1) {
                Err(e) => Err(e),
                Ok(t) => if !(t.tok is Question) {
                    Ok((c, p1))
                } else {
                    proof {
                        lemma_lex_bounds(src, p1);
                    }
                    match p_expr(src, m, t.end, depth) {
                        Err(e) => Err(e),
                        Ok((a, p2)) => if !fwd(t.end, p2, src.len() as int) {
                            Err(stuck(p2))
                        } else {
                            match spec_lex(src, p2) {
                                Err(e) => Err(e),
                                Ok(t2) => if !(t2.tok is Colon) {
                                    Err(err_at(t2.start, ParseErrorKind::ExpectedTernaryColon))
                                } else {
                                    proof {
                                        lemma_lex_bounds(src, p2);
                                    }
                                    match p_expr(src, m, t2.end, depth) {
                                        Err(e) => Err(e),
                                        Ok((b, p3)) => if m.js_mode {
                                            Ok(
                                                (
                                                    SpecExpr::Ternary(
                                                        Box::new(c),
                                                        Box::new(a),
                                                        Box::new(b),
                                                    ),
                                                    p3,
                                                ),
                                            )
                                        } else {
                                            match spec_lex(src, p3) {
                                                Err(e) => Err(e),
                                                Ok(t3) => Ok(
                                                    (
                                                        SpecExpr::Call(
                                                            "IF".spec_bytes(),
                                                            seq![c, a, b],
                                                            t.start,
                                                            t3.start,
                                                        ),
                                                        p3,
                                                    ),
                                                ),
                                            }
                                        },
                                    }
                                },
                            }
                        },
                    }
                },
            }
        },
    }
}

/// Binary operators by precedence climbing.
pub open spec fn p_binary(src: Seq<u8>, m: Mode, pos: int, depth: int, min_bp: int) -> PRes
    decreases lk(m), src.len() - pos, 7int,
{
    match p_unary(src, m, pos, depth) {
        Err(e) => Err(e),
        Ok((lhs, p1)) => if !fwd(pos, p1, src.len() as int) {
            Err(stuck(p1))
        } else {
            p_binary_rest(src, m, p1, depth, min_bp, lhs)
        },
    }
}

/// Operators following the left operand `lhs` at `pos`.
pub open spec fn p_binary_rest(
    src: Seq<u8>,
    m: Mode,
    pos: int,
    depth: int,
    min_bp: int,
    lhs: SpecExpr,
) -> PRes
    decreases lk(m), src.len() - pos, 6int,
{
    match spec_lex(src, pos) {
        Err(e) => Err(e),
        Ok(t) => match binop_info(t.tok) {
            None => Ok((lhs, pos)),
            Some((op, l_bp, right_assoc)) => if l_bp < min_bp {
                Ok((lhs, pos))
            } else if op == BinOp::Pow && lhs is Unary {
                Err(err_at(t.start, ParseErrorKind::UnaryPowOperand))
            } else if !fwd(0, pos, src.len() as int) {
                Err(stuck(pos))
            } else if right_assoc && depth + 1 > MAX_DEPTH {
                Err(err_at(t.start, ParseErrorKind::TooDeep))
            } else {
                proof {
                    lemma_lex_bounds(src, pos);
                }
                match p_binary(
                    src,
                    m,
                    t.end,
                    if right_assoc { depth + 1 } else { depth },
                    if right_assoc { l_bp } else { l_bp + 1 },
                ) {
                    Err(e) => Err(e),
                    Ok((rhs, p2)) => if !fwd(t.end, p2, src.len() as int) {
                        Err(stuck(p2))
                    } else {
                        p_binary_rest(
                            src,
                            m,
                            p2,
                            depth,
                            min_bp,
                            SpecExpr::Binary(op, Box::new(lhs), Box::new(rhs)),
                        )
                    },
                }
            },
        },
    }
}

/// Prefix operators.
pub open spec fn p_unary(src: Seq<u8>, m: Mode, pos: int, depth: int) -> PRes
    decreases lk(m), src.len() - pos, 5int,
{
    match spec_lex(src, pos) {
        Err(e) => Err(e),
        Ok(t) => match unop_of(t.tok) {
            Some(op) => if !fwd(0, pos, src.len() as int) {
                Err(stuck(pos))
            } else if depth + 1 > MAX_DEPTH {
                Err(err_at(t.start, ParseErrorKind::TooDeep))
            } else {
                proof {
                    lemma_lex_bounds(src, pos);
                }
                match p_unary(src, m, t.end, depth + 1) {
                    Err(e) => Err(e),
                    Ok((e1, p1)) => Ok((SpecExpr::Unary(op, Box::new(e1)), p1)),
                }
            },
            None => p_primary(src, m, pos, depth),
        },
    }
}

/// Operands: literals, names, calls, groups and bracket groups.
pub open spec fn p_primary(src: Seq<u8>, m: Mode, pos: int, depth: int) -> PRes
    decreases lk(m), src.len() - pos, 4int,
{
    if !fwd(0, pos, src.len() as int) {
        Err(stuck(pos))
    } else {
        match spec_lex(src, pos) {
            Err(e) => Err(e),
            Ok(t) => {
                proof {
                    lemma_lex_bounds(src, pos);
                }
                match t.tok {
                    SpecTok::Num(n) => Ok((SpecExpr::Num(n), t.end)),
                    SpecTok::Str(s) => Ok((SpecExpr::Str(s, spec_contains_val_marker(s)), t.end)),
                    SpecTok::ValRef(name) => Ok((SpecExpr::ValRef(name, t.start, t.end), t.end)),
                    SpecTok::Ident(name) => p_ident(src, m, t.end, depth, name, t.start),
                    SpecTok::LParen => p_group(src, m, t.end, depth, t.start),
                    SpecTok::LBracket => p_bracket(src, m, t.end, depth, t.start),
                    SpecTok::Eof => Err(err_at(t.start, ParseErrorKind::UnexpectedEnd)),
                    other => Err(err_at(t.start, ParseErrorKind::UnexpectedToken(punct_of(other)))),
                }
            },
        }
    }
}

/// A name (just lexed, ending at `pos`): keyword literal, call, or
/// identifier.
pub open spec fn p_ident(
    src: Seq<u8>,
    m: Mode,
    pos: int,
    depth: int,
    name: Seq<u8>,
    start: int,
) -> PRes
    decreases lk(m), src.len() - pos, 3int,
{
    if name == "true".spec_bytes() {
        Ok((SpecExpr::Bool(true), pos))
    } else if name == "false".spec_bytes() {
        Ok((SpecExpr::Bool(false), pos))
    } else if name == "undefined".spec_bytes() {
        Ok((SpecExpr::Undefined, pos))
    } else if !fwd(0, pos, src.len() as int) {
        Err(stuck(pos))
    } else {
        match spec_lex(src, pos) {
            Err(e) => Err(e),
            Ok(t) => if !(t.tok is LParen) {
                Ok((SpecExpr::Ident(name, start, pos), pos))
            } else {
                proof {
                    lemma_lex_bounds(src, pos);
                }
                let canonical = call_name(name);
                if m.lookup_special && (canonical == "LOOKUP".spec_bytes() || canonical
                    == "CLOSEST".spec_bytes()) && t.start == pos {
                    p_lookup_call(src, m, canonical, start, t.end)
                } else {
                    match spec_lex(src, t.end) {
                        Err(e) => Err(e),
                        Ok(t2) => if t2.tok is RParen {
                            proof {
                                lemma_lex_bounds(src, t.end);
                            }
                            match spec_lex(src, t2.end) {
                                Err(e) => Err(e),
                                Ok(t3) => Ok(
                                    (SpecExpr::Call(canonical, Seq::empty(), start, t3.start), t2.end),
                                ),
                            }
                        } else {
                            match p_args(src, m, t.end, depth, Seq::empty()) {
                                Err(e) => Err(e),
                                Ok((args, p2)) => match spec_lex(src, p2) {
                                    Err(e) => Err(e),
                                    Ok(t4) => Ok((SpecExpr::Call(canonical, args, start, t4.start), p2)),
                                },
                            }
                        },
                    }
                }
            },
        }
    }
}

/// Call arguments separated by `,` (or `:` in the dialect) up to `)`.
pub open spec fn p_args(src: Seq<u8>, m: Mode, pos: int, depth: int, args: Seq<SpecExpr>) -> PList
    decreases lk(m), src.len() - pos, 10int,
{
    match p_expr(src, m, pos, depth) {
        Err(e) => Err(e),
        Ok((e, p1)) => if !fwd(pos, p1, src.len() as int) {
            Err(stuck(p1))
        } else {
            match spec_lex(src, p1) {
                Err(er) => Err(er),
                Ok(sep) => if sep.tok is Comma || (sep.tok is Colon && !m.js_mode) {
                    proof {
                        lemma_lex_bounds(src, p1);
                    }
                    p_args(src, m, sep.end, depth, args.push(e))
                } else if sep.tok is RParen {
                    Ok((args.push(e), sep.end))
                } else {
                    Err(err_at(sep.start, ParseErrorKind::ExpectedArgSeparator))
                },
            }
        },
    }
}

/// Parenthesized expression or sequence; `start` is the `(`.
pub open spec fn p_group(src: Seq<u8>, m: Mode, pos: int, depth: int, start: int) -> PRes
    decreases lk(m), src.len() - pos, 11int,
{
    if depth + 1 > MAX_DEPTH {
        Err(err_at(start, ParseErrorKind::TooDeep))
    } else {
        match p_expr(src, m, pos, depth + 1) {
            Err(e) => Err(e),
            Ok((e, p1)) => if !fwd(pos, p1, src.len() as int) {
                Err(stuck(p1))
            } else {
                p_group_rest(src, m, p1, depth + 1, seq![e])
            },
        }
    }
}

pub open spec fn p_group_rest(src: Seq<u8>, m: Mode, pos: int, depth: int, items: Seq<SpecExpr>) -> PRes
    decreases lk(m), src.len() - pos, 10int,
{
    if !fwd(0, pos, src.len() as int) {
        Err(stuck(pos))
    } else {
        match spec_lex(src, pos) {
            Err(e) => Err(e),
            Ok(t) => {
                proof {
                    lemma_lex_bounds(src, pos);
                }
                if t.tok is RParen {
                    Ok((mk_seq(items), t.end))
                } else if t.tok is Comma || (t.tok is Colon && !m.js_mode) {
                    match p_expr(src, m, t.end, depth) {
                        Err(e) => Err(e),
                        Ok((e, p1)) => if !fwd(t.end, p1, src.len() as int) {
                            Err(stuck(p1))
                        } else {
                            p_group_rest(src, m, p1, depth, items.push(e))
                        },
                    }
                } else {
                    Err(err_at(t.start, ParseErrorKind::ExpectedGroupClose))
                }
            },
        }
    }
}

/// Bracket group `[a, b, …]`; `start` is the `[`.
pub open spec fn p_bracket(src: Seq<u8>, m: Mode, pos: int, depth: int, start: int) -> PRes
    decreases lk(m), src.len() - pos, 11int,
{
    if depth + 1 > MAX_DEPTH {
        Err(err_at(start, ParseErrorKind::TooDeep))
    } else {
        match spec_lex(src, pos) {
            Err(e) => Err(e),
            Ok(t) => if t.tok is RBracket {
                Ok((SpecExpr::Bracket(Seq::empty()), t.end))
            } else {
                p_bracket_rest(src, m, pos, depth + 1, Seq::empty())
            },
        }
    }
}

pub open spec fn p_bracket_rest(src: Seq<u8>, m: Mode, pos: int, depth: int, items: Seq<SpecExpr>) -> PRes
    decreases lk(m), src.len() - pos, 10int,
{
    match p_expr(src, m, pos, depth) {
        Err(e) => Err(e),
        Ok((e, p1)) => if !fwd(pos, p1, src.len() as int) {
            Err(stuck(p1))
        } else {
            match spec_lex(src, p1) {
                Err(er) => Err(er),
                Ok(t) => if t.tok is RBracket {
                    Ok((SpecExpr::Bracket(items.push(e)), t.end))
                } else if t.tok is Comma {
                    proof {
                        lemma_lex_bounds(src, p1);
                    }
                    p_bracket_rest(src, m, t.end, depth, items.push(e))
                } else {
                    Err(err_at(t.start, ParseErrorKind::ExpectedBracketSeparator))
                },
            }
        },
    }
}

/// LOOKUP/CLOSEST call whose `(` ends at `args_start`: the raw argument text
/// up to the matching `)` is segmented and read again as a comma-separated
/// argument list.
#[verifier::opaque]
pub open spec fn p_lookup_call(
    src: Seq<u8>,
    m: Mode,
    name: Seq<u8>,
    call_start: int,
    args_start: int,
) -> PRes
    decreases lk(m), src.len() - args_start, 2int,
{
    match match_paren(src, args_start, 1) {
        None => Err(err_at(call_start, ParseErrorKind::UnbalancedLookup)),
        Some(i) => if !m.lookup_special || !fwd(0, args_start, i) {
            Err(stuck(call_start))
        } else {
            let args = lookup_args(lookup_source(src, args_start, i), m.js_mode, call_start);
            match args {
                Err(e) => Err(e),
                Ok(a) => Ok((SpecExpr::Call(name, a, call_start, i + 1), i + 1)),
            }
        },
    }
}

/// The argument list read from segmented argument text `sub`: empty, or
/// expressions separated by `,` up to the end.
pub open spec fn lookup_args(sub: Seq<u8>, js_mode: bool, call_start: int) -> Result<Seq<SpecExpr>, ParseError>
    decreases 0int, sub.len(), 11int,
{
    match spec_lex(sub, 0) {
        Err(e) => Err(spec_reloc(e, call_start)),
        Ok(t) => if t.tok is Eof {
            Ok(Seq::<SpecExpr>::empty())
        } else {
            p_lookup_list(sub, Mode { lookup_special: false, js_mode }, 0, Seq::empty(), call_start)
        },
    }
}

/// The re-read argument list: expressions separated by `,` up to the end.
pub open spec fn p_lookup_list(
    sub: Seq<u8>,
    m: Mode,
    pos: int,
    args: Seq<SpecExpr>,
    call_start: int,
) -> Result<Seq<SpecExpr>, ParseError>
    decreases lk(m), sub.len() - pos, 10int,
{
    match p_expr(sub, m, pos, 0) {
        Err(e) => Err(spec_reloc(e, call_start)),
        Ok((e, p1)) => if !fwd(pos, p1, sub.len() as int) {
            Err(stuck(p1))
        } else {
            match spec_lex(sub, p1) {
                Err(er) => Err(spec_reloc(er, call_start)),
                Ok(t) => if t.tok is Comma {
                    proof {
                        lemma_lex_bounds(sub, p1);
                    }
                    p_lookup_list(sub, m, t.end, args.push(e), call_start)
                } else if t.tok is Eof {
                    Ok(args.push(e))
                } else {
                    Err(err_at(call_start, ParseErrorKind::InvalidLookupArgs))
                },
            }
        },
    }
}


/// What a LOOKUP/CLOSEST call reads, once its `)` is found.
pub proof fn lemma_lookup_call(src: Seq<u8>, m: Mode, name: Seq<u8>, call_start: int, args_start: int, i: int)
    requires
        m.lookup_special,
        0 <= args_start <= i,
        match_paren(src, args_start, 1) == Some(i),
    ensures
        p_lookup_call(src, m, name, call_start, args_start) == match lookup_args(lookup_source(src, args_start, i), m.js_mode, call_start) {
            Err(e) => Err(e),
            Ok(a) => Ok((SpecExpr::Call(name, a, call_start, i + 1), i + 1)),
        },
{
    reveal(p_lookup_call);
}

/// A LOOKUP/CLOSEST call without a matching `)`.
pub proof fn lemma_lookup_call_unbalanced(src: Seq<u8>, m: Mode, name: Seq<u8>, call_start: int, args_start: int)
    requires
        match_paren(src, args_start, 1) is None,
    ensures
        p_lookup_call(src, m, name, call_start, args_start) == Err::<(SpecExpr, int), ParseError>(err_at(call_start, ParseErrorKind::UnbalancedLookup)),
{
    reveal(p_lookup_call);
}

/// The token at `pos` is the keyword `kw` with a literal space on both sides.
pub open spec fn at_keyword(src: Seq<u8>, pos: int, kw: Seq<u8>) -> Result<bool, ParseError> {
    match spec_lex(src, pos) {
        Err(e) => Err(e),
        Ok(t) => Ok(
            t.tok matches SpecTok::Ident(w) && w == kw && t.start > 0 && src[t.start - 1] == 32
                && t.end < src.len() && src[t.end] == 32,
        ),
    }
}

/// The token at `pos` is `IF` followed by a literal space.
pub open spec fn at_natural_if(src: Seq<u8>, pos: int) -> Result<bool, ParseError> {
    match spec_lex(src, pos) {
        Err(e) => Err(e),
        Ok(t) => Ok(
            t.tok matches SpecTok::Ident(w) && w == "IF".spec_bytes() && t.end < src.len()
                && src[t.end] == 32,
        ),
    }
}

/// Condition list of a natural IF, up to `THEN`.
pub open spec fn p_if_cond(src: Seq<u8>, m: Mode, pos: int, depth: int, args: Seq<SpecExpr>) -> PList
    decreases src.len() - pos,
{
    match at_keyword(src, pos, "THEN".spec_bytes()) {
        Err(e) => Err(e),
        Ok(true) => Ok((args, pos)),
        Ok(false) => match p_expr(src, m, pos, depth) {
            Err(e) => Err(e),
            Ok((e, p1)) => if !fwd(pos, p1, src.len() as int) {
                Err(stuck(p1))
            } else {
                match spec_lex(src, p1) {
                    Err(er) => Err(er),
                    Ok(t) => if t.tok is Comma {
                        proof {
                            lemma_lex_bounds(src, p1);
                        }
                        p_if_cond(src, m, t.end, depth, args.push(e))
                    } else {
                        Ok((args.push(e), p1))
                    },
                }
            },
        },
    }
}

/// THEN list of a natural IF, up to `ELSE` or the end.
pub open spec fn p_if_then(src: Seq<u8>, m: Mode, pos: int, depth: int, args: Seq<SpecExpr>) -> PList
    decreases src.len() - pos,
{
    match at_keyword(src, pos, "ELSE".spec_bytes()) {
        Err(e) => Err(e),
        Ok(true) => Ok((args, pos)),
        Ok(false) => match spec_lex(src, pos) {
            Err(e) => Err(e),
            Ok(t0) => if t0.tok is Eof {
                Ok((args, pos))
            } else {
                match p_expr(src, m, pos, depth) {
                    Err(e) => Err(e),
                    Ok((e, p1)) => if !fwd(pos, p1, src.len() as int) {
                        Err(stuck(p1))
                    } else {
                        match spec_lex(src, p1) {
                            Err(er) => Err(er),
                            Ok(t) => if t.tok is Comma {
                                proof {
                                    lemma_lex_bounds(src, p1);
                                }
                                p_if_then(src, m, t.end, depth, args.push(e))
                            } else {
                                Ok((args.push(e), p1))
                            },
                        }
                    },
                }
            },
        },
    }
}

/// ELSE list of a natural IF: expressions separated by `,`.
pub open spec fn p_if_else(src: Seq<u8>, m: Mode, pos: int, depth: int, args: Seq<SpecExpr>) -> PList
    decreases src.len() - pos,
{
    match p_expr(src, m, pos, depth) {
        Err(e) => Err(e),
        Ok((e, p1)) => if !fwd(pos, p1, src.len() as int) {
            Err(stuck(p1))
        } else {
            match spec_lex(src, p1) {
                Err(er) => Err(er),
                Ok(t) => if t.tok is Comma {
                    proof {
                        lemma_lex_bounds(src, p1);
                    }
                    p_if_else(src, m, t.end, depth, args.push(e))
                } else {
                    Ok((args.push(e), p1))
                },
            }
        },
    }
}

/// The call a natural IF stands for, ending where the next token starts.
pub open spec fn if_call(src: Seq<u8>, start: int, args: Seq<SpecExpr>, pos: int) -> PRes {
    match spec_lex(src, pos) {
        Err(e) => Err(e),
        Ok(t) => Ok((SpecExpr::Call("IF".spec_bytes(), args, start, t.start), pos)),
    }
}

/// `IF cond… THEN a… [ELSE b… | ELSE IF …]`, recognized only with single
/// spaces around the keywords; an `IF(...)` call with the lists flattened
/// into its arguments and a literal `0` for a missing ELSE.
pub open spec fn p_natural_if(src: Seq<u8>, m: Mode, pos: int, depth: int) -> PRes
    decreases src.len() - pos,
{
    match spec_lex(src, pos) {
        Err(e) => Err(e),
        Ok(tif) => if depth + 1 > MAX_DEPTH {
            Err(err_at(tif.start, ParseErrorKind::TooDeep))
        } else if !fwd(0, pos, src.len() as int) || tif.tok is Eof {
            Err(stuck(pos))
        } else {
            let d = depth + 1;
            proof {
                lemma_lex_bounds(src, pos);
            }
            match p_if_cond(src, m, tif.end, d, Seq::empty()) {
                Err(e) => Err(e),
                Ok((args, p1)) => match at_keyword(src, p1, "THEN".spec_bytes()) {
                    Err(e) => Err(e),
                    Ok(false) => match spec_lex(src, p1) {
                        Err(e) => Err(e),
                        Ok(t) => Err(err_at(t.start, ParseErrorKind::ExpectedThen)),
                    },
                    Ok(true) => match spec_lex(src, p1) {
                        Err(e) => Err(e),
                        Ok(tthen) => if args.len() == 0 {
                            Err(err_at(tthen.start, ParseErrorKind::EmptyIfCondition))
                        } else {
                            match p_if_then(src, m, tthen.end, d, args) {
                                Err(e) => Err(e),
                                Ok((args2, p3)) => if args2.len() == args.len() {
                                    match spec_lex(src, p3) {
                                        Err(e) => Err(e),
                                        Ok(t) => Err(err_at(t.start, ParseErrorKind::EmptyThenBranch)),
                                    }
                                } else {
                                    match at_keyword(src, p3, "ELSE".spec_bytes()) {
                                        Err(e) => Err(e),
                                        Ok(false) => if_call(
                                            src,
                                            tif.start,
                                            args2.push(SpecExpr::Num(SpecNum::Decimal("0".spec_bytes()))),
                                            p3,
                                        ),
                                        Ok(true) => match spec_lex(src, p3) {
                                            Err(e) => Err(e),
                                            Ok(telse) => if !fwd(pos, p3, src.len() as int) {
                                                Err(stuck(p3))
                                            } else {
                                                proof {
                                                    lemma_lex_bounds(src, p3);
                                                }
                                                match at_natural_if(src, telse.end) {
                                                    Err(e) => Err(e),
                                                    Ok(true) => match p_natural_if(src, m, telse.end, d) {
                                                        Err(e) => Err(e),
                                                        Ok((nested, p5)) => if_call(src, tif.start, args2.push(nested), p5),
                                                    },
                                                    Ok(false) => match p_if_else(src, m, telse.end, d, args2) {
                                                        Err(e) => Err(e),
                                                        Ok((args3, p5)) => if_call(src, tif.start, args3, p5),
                                                    },
                                                }
                                            },
                                        },
                                    }
                                },
                            }
                        },
                    },
                },
            }
        },
    }
}

/// Top-level comma expression continuing at `pos`.
pub open spec fn p_prog_rest(src: Seq<u8>, m: Mode, pos: int, items: Seq<SpecExpr>) -> PRes
    decreases src.len() - pos,
{
    if !fwd(0, pos, src.len() as int) {
        Err(stuck(pos))
    } else {
        match spec_lex(src, pos) {
            Err(e) => Err(e),
            Ok(t) => if t.tok is Comma {
                proof {
                    lemma_lex_bounds(src, pos);
                }
                match p_expr(src, m, t.end, 0) {
                    Err(e) => Err(e),
                    Ok((e, p1)) => if !fwd(t.end, p1, src.len() as int) {
                        Err(stuck(p1))
                    } else {
                        p_prog_rest(src, m, p1, items.push(e))
                    },
                }
            } else {
                Ok((mk_seq(items), pos))
            },
        }
    }
}

/// A whole program: empty (undefined), a natural IF (dialect only), or a
/// comma expression; nothing may follow.
pub open spec fn p_program(src: Seq<u8>, m: Mode) -> Result<SpecExpr, ParseError> {
    match spec_lex(src, 0) {
        Err(e) => Err(e),
        Ok(t) => if t.tok is Eof {
            Ok(SpecExpr::Undefined)
        } else {
            let natural = !m.js_mode && (t.tok matches SpecTok::Ident(w) && w == "IF".spec_bytes()
                && t.end < src.len() && src[t.end] == 32);
            let r = if natural {
                p_natural_if(src, m, 0, 0)
            } else {
                match p_expr(src, m, 0, 0) {
                    Err(e) => Err(e),
                    Ok((e, p1)) => p_prog_rest(src, m, p1, seq![e]),
                }
            };
            match r {
                Err(e) => Err(e),
                Ok((e, p)) => match spec_lex(src, p) {
                    Err(er) => Err(er),
                    Ok(t2) => if t2.tok is Eof {
                        Ok(e)
                    } else {
                        Err(err_at(t2.start, ParseErrorKind::TrailingInput))
                    },
                },
            }
        },
    }
}

/// The tree the full dialect reads from `src`.
pub open spec fn spec_compile(src: Seq<u8>) -> Result<SpecExpr, ParseError> {
    p_program(src, Mode { lookup_special: true, js_mode: false })
}

/// The tree raw-JS mode reads from `src`.
pub open spec fn spec_compile_js(src: Seq<u8>) -> Result<SpecExpr, ParseError> {
    p_program(src, Mode { lookup_special: false, js_mode: true })
}


// ---------------------------------------------------------------------------
// Executable parser
// ---------------------------------------------------------------------------

/// `a` holds the UTF-8 bytes of `lit`.
pub fn eq_lit(a: &[u8], lit: &str) -> (r: bool)
    ensures
        r == (a@ == lit.spec_bytes()),
{
    let b = lit.as_bytes();
    if a.len() != b.len() {
        return false;
    }
    let mut i: usize = 0;
    while i < a.len()
        invariant
            a@.len() == b@.len(),
            b@ == lit.spec_bytes(),
            0 <= i <= a@.len(),
            forall|k: int| 0 <= k < i ==> a@[k] == b@[k],
        decreases a@.len() - i,
    {
        if a[i] != b[i] {
            return false;
        }
        i += 1;
    }
    assert(a@ =~= b@);
    true
}

/// `src[start..end]` holds the UTF-8 bytes of `lit`.
fn eq_lit_range(src: &[u8], start: usize, end: usize, lit: &str) -> (r: bool)
    requires
        start <= end <= src@.len(),
    ensures
        r == (src@.subrange(start as int, end as int) == lit.spec_bytes()),
{
    let b = lit.as_bytes();
    if end - start != b.len() {
        return false;
    }
    let mut i: usize = 0;
    while i < b.len()
        invariant
            end - start == b@.len(),
            start <= end <= src@.len(),
            b@ == lit.spec_bytes(),
            0 <= i <= b@.len(),
            forall|k: int| 0 <= k < i ==> src@[start + k] == b@[k],
        decreases b@.len() - i,
    {
        if src[start + i] != b[i] {
            return false;
        }
        i += 1;
    }
    assert(src@.subrange(start as int, end as int) =~= b@);
    true
}

/// The UTF-8 bytes of `lit`.
fn lit_bytes(lit: &str) -> (v: Vec<u8>)
    ensures
        v@ == lit.spec_bytes(),
{
    let b = lit.as_bytes();
    copy_range(b, 0, b.len())
}

pub(crate) fn ascii_upper_exec(w: &Vec<u8>) -> (u: Vec<u8>)
    ensures
        u@ == ascii_upper(w@),
{
    let mut u: Vec<u8> = Vec::new();
    let mut i: usize = 0;
    while i < w.len()
        invariant
            0 <= i <= w@.len(),
            u@ == ascii_upper(w@).subrange(0, i as int),
        decreases w@.len() - i,
    {
        let c = w[i];
        u.push(if 97 <= c && c <= 122 { c - 32 } else { c });
        i += 1;
        assert(u@ =~= ascii_upper(w@).subrange(0, i as int));
    }
    assert(ascii_upper(w@).subrange(0, w@.len() as int) =~= ascii_upper(w@));
    u
}

pub(crate) fn is_canon_exec(w: &Vec<u8>) -> (r: bool)
    ensures
        r == is_canon_name(w@),
{
    let w = w.as_slice();
    eq_lit(w, "AVG") || eq_lit(w, "BARO") || eq_lit(w, "BIT") || eq_lit(w, "BITSELECT") || eq_lit(
        w,
        "BITVALUE",
    ) || eq_lit(w, "CLOSEST") || eq_lit(w, "EWMAF") || eq_lit(w, "FLOAT32") || eq_lit(w, "FLOAT64")
        || eq_lit(w, "IFANY") || eq_lit(w, "INT16") || eq_lit(w, "INT24") || eq_lit(w, "INT32")
        || eq_lit(w, "LOG1P") || eq_lit(w, "RANDOM") || eq_lit(w, "RAVG") || eq_lit(w, "RDLY")
        || eq_lit(w, "SIGNED") || eq_lit(w, "SIGNED8") || eq_lit(w, "SIGNED16") || eq_lit(
        w,
        "SIGNED24",
    ) || eq_lit(w, "SIGNED32") || eq_lit(w, "TAVG") || eq_lit(w, "TDLY") || eq_lit(w, "TOT")
        || eq_lit(w, "LOOKUP")
}

/// Whether string content holds a `val{` marker (any case of `val`), looked
/// for only in content of five bytes or more.
pub fn contains_val_marker(b: &[u8]) -> (r: bool)
    ensures
        r == spec_contains_val_marker(b@),
{
    if b.len() < 5 {
        return false;
    }
    let mut i: usize = 0;
    while i < b.len() - 3
        invariant
            b@.len() >= 5,
            0 <= i <= b@.len() - 3,
            forall|k: int| 0 <= k < i ==> !is_val_marker_at(b@, k),
        decreases b@.len() - 3 - i,
    {
        if (b[i] == 118 || b[i] == 86) && (b[i + 1] == 97 || b[i + 1] == 65) && (b[i + 2] == 108
            || b[i + 2] == 76) && b[i + 3] == 123 {
            assert(is_val_marker_at(b@, i as int));
            return true;
        }
        i += 1;
    }
    false
}

pub open spec fn presult(r: Result<Expr, ParseError>, pos: int) -> PRes {
    match r {
        Ok(e) => Ok((e@, pos)),
        Err(e) => Err(e),
    }
}

pub open spec fn plist(r: Result<Vec<Expr>, ParseError>, pos: int) -> PList {
    match r {
        Ok(v) => Ok((view_exprs(v@), pos)),
        Err(e) => Err(e),
    }
}

pub proof fn lemma_view_exprs_push(v: Seq<Expr>, e: Expr)
    ensures
        view_exprs(v.push(e)) == view_exprs(v).push(e@),
        view_exprs(v.push(e)).len() == v.len() + 1,
{
    assert(v.push(e).drop_last() =~= v);
    lemma_view_exprs_len(v);
}

pub proof fn lemma_view_exprs_len(v: Seq<Expr>)
    ensures
        view_exprs(v).len() == v.len(),
    decreases v.len(),
{
    if v.len() > 0 {
        lemma_view_exprs_len(v.drop_last());
        assert(view_exprs(v) == view_exprs(v.drop_last()).push(v.last().view()));
    } else {
        assert(view_exprs(v) == Seq::<SpecExpr>::empty());
    }
}

pub proof fn lemma_view_exprs_index(v: Seq<Expr>, i: int)
    requires
        0 <= i < v.len(),
    ensures
        view_exprs(v)[i] == v[i]@,
    decreases v.len(),
{
    lemma_view_exprs_len(v);
    assert(view_exprs(v) == view_exprs(v.drop_last()).push(v.last().view()));
    if i < v.len() - 1 {
        lemma_view_exprs_index(v.drop_last(), i);
    }
}

/// The text between the `(` ending at `a` and the `)` at `i`.
fn arg_text<'a>(text: &'a str, a: usize, i: usize) -> (raw: &'a str)
    requires
        valid_utf8(text.spec_bytes()),
        1 <= a <= i < text.spec_bytes().len(),
        text.spec_bytes()[a - 1] == 40,
        text.spec_bytes()[i as int] == 41,
    ensures
        raw@ == decode_utf8(text.spec_bytes().subrange(a as int, i as int)),
{
    let ghost src = text.spec_bytes();
    proof {
        is_char_boundary_iff_not_is_continuation_byte(src, i as int);
        valid_utf8_split(src, i as int);
        let left = src.subrange(0, i as int);
        if a < i {
            lemma_boundary_after_ascii(left, a as int);
        } else {
            is_char_boundary_start_end_of_seq(left);
        }
    }
    let (left, _) = text.split_at(i);
    let (_, raw) = left.split_at(a);
    proof {
        assert(raw.spec_bytes() =~= src.subrange(a as int, i as int));
        encode_utf8_decode_utf8(raw@);
    }
    raw
}

/// The segmented argument text of the LOOKUP/CLOSEST call whose
/// arguments are `text[a..i]`.
fn lookup_args_text(text: &str, a: usize, i: usize) -> (p: String)
    requires
        valid_utf8(text.spec_bytes()),
        1 <= a <= i < text.spec_bytes().len(),
        text.spec_bytes()[a - 1] == 40,
        text.spec_bytes()[i as int] == 41,
    ensures
        encode_utf8(p@) == lookup_source(text.spec_bytes(), a as int, i as int),
{
    let raw = arg_text(text, a, i);
    proof {
        reveal(lookup_source);
    }
    lookup_call_text(raw)
}

/// Index of the `)` closing the `(` just before `start`, by a plain
/// parenthesis count (quotes are not special).
fn find_close_paren(b: &[u8], start: usize) -> (r: Option<usize>)
    requires
        1 <= start <= b@.len(),
    ensures
        match r {
            Some(i) => match_paren(b@, start as int, 1) == Some(i as int) && start <= i < b@.len()
                && b@[i as int] == 41,
            None => match_paren(b@, start as int, 1) is None,
        },
{
    let mut depth: usize = 1;
    let mut i = start;
    while i < b.len()
        invariant
            1 <= start <= i <= b@.len(),
            1 <= depth <= i - start + 1,
            match_paren(b@, start as int, 1) == match_paren(b@, i as int, depth as int),
        decreases b@.len() - i,
    {
        let d = if b[i] == 40 {
            depth + 1
        } else if b[i] == 41 {
            depth - 1
        } else {
            depth
        };
        if d == 0 {
            return Some(i);
        }
        depth = d;
        i += 1;
    }
    None
}

/// Reads segmented LOOKUP/CLOSEST argument text as an argument list.
fn parse_lookup_text(text: &str, js_mode: bool, call_start: usize) -> (r: Result<Vec<Expr>, ParseError>)
    ensures
        match r {
            Ok(v) => lookup_args(text.spec_bytes(), js_mode, call_start as int)
                == Ok::<Seq<SpecExpr>, ParseError>(view_exprs(v@)),
            Err(e) => lookup_args(text.spec_bytes(), js_mode, call_start as int)
                == Err::<Seq<SpecExpr>, ParseError>(e),
        },
    decreases 0int, text.spec_bytes().len(), 13int,
{
    let mut sub = Parser::new(text, Mode { lookup_special: false, js_mode });
    match sub.peek() {
        Err(e) => Err(reloc(e, call_start)),
        Ok(first) => if first.class == TokClass::Eof {
            proof {
                assert(view_exprs(Seq::<Expr>::empty()) =~= Seq::<SpecExpr>::empty());
            }
            Ok(Vec::new())
        } else {
            sub.parse_lookup_list(call_start)
        },
    }
}

/// The parser state: source text, token stream, mode and nesting depth.
pub struct Parser<'s> {
    pub text: &'s str,
    pub lx: Lexer<'s>,
    pub mode: Mode,
    pub depth: u32,
}

impl<'s> Parser<'s> {
    pub open spec fn src(&self) -> Seq<u8> {
        self.lx.src@
    }

    pub open spec fn pos(&self) -> int {
        self.lx.lpos()
    }

    pub open spec fn wf(&self) -> bool {
        &&& self.lx.wf()
        &&& self.lx.src@ == self.text.spec_bytes()
        &&& self.depth <= MAX_DEPTH
        &&& self.mode.lookup_special ==> valid_utf8(self.lx.src@)
    }

    /// Same source and mode; on success well-formed, at the same depth, and
    /// not moved backwards.
    pub open spec fn keeps(&self, old: &Self, ok: bool) -> bool {
        &&& self.lx.src == old.lx.src
        &&& self.text == old.text
        &&& self.mode == old.mode
        &&& ok ==> self.wf() && self.depth == old.depth && old.pos() <= self.pos() <= self.src().len()
    }

    fn new(text: &'s str, mode: Mode) -> (p: Self)
        requires
            mode.lookup_special ==> valid_utf8(text.spec_bytes()),
        ensures
            p.wf(),
            p.text == text,
            p.mode == mode,
            p.depth == 0,
            p.pos() == 0,
            p.src() == text.spec_bytes(),
    {
        let src = text.as_bytes();
        Parser { text, lx: Lexer::new(src), mode, depth: 0 }
    }

    fn peek(&mut self) -> (r: Result<TokInfo, ParseError>)
        requires
            old(self).wf(),
        ensures
            final(self).keeps(old(self), r is Ok),
            final(self).depth == old(self).depth,
            match r {
                Ok(info) => describes(old(self).src(), old(self).pos(), info)
                    && final(self).pos() == old(self).pos(),
                Err(e) => spec_lex(old(self).src(), old(self).pos()) == Err::<SpecToken, ParseError>(e),
            },
    {
        self.lx.peek()
    }

    fn next(&mut self) -> (r: Result<crate::lexer::Token, ParseError>)
        requires
            old(self).wf(),
        ensures
            final(self).keeps(old(self), r is Ok),
            final(self).depth == old(self).depth,
            token_result(r) == spec_lex(old(self).src(), old(self).pos()),
            r matches Ok(t) ==> final(self).pos() == t.end && old(self).pos() <= t.start <= t.end,
    {
        self.lx.next()
    }

    /// Whether the next token is the keyword `kw` between single spaces.
    fn at_keyword(&mut self, kw: &str) -> (r: Result<bool, ParseError>)
        requires
            old(self).wf(),
        ensures
            final(self).keeps(old(self), r is Ok),
            final(self).depth == old(self).depth,
            r == at_keyword(old(self).src(), old(self).pos(), kw.spec_bytes()),
            r is Ok ==> final(self).pos() == old(self).pos(),
    {
        let t = self.peek()?;
        proof {
            lemma_lex_bounds(self.src(), self.pos());
        }
        if t.class == TokClass::Ident {
            let b = self.lx.src;
            let ok = eq_lit_range(b, t.start, t.end, kw) && t.start > 0 && b[t.start - 1] == 32
                && t.end < b.len() && b[t.end] == 32;
            Ok(ok)
        } else {
            Ok(false)
        }
    }

    /// Whether the next token is `IF` followed by a space.
    fn at_natural_if(&mut self) -> (r: Result<bool, ParseError>)
        requires
            old(self).wf(),
        ensures
            final(self).keeps(old(self), r is Ok),
            final(self).depth == old(self).depth,
            r == at_natural_if(old(self).src(), old(self).pos()),
            r is Ok ==> final(self).pos() == old(self).pos(),
    {
        let t = self.peek()?;
        proof {
            lemma_lex_bounds(self.src(), self.pos());
        }
        if t.class == TokClass::Ident {
            let b = self.lx.src;
            Ok(eq_lit_range(b, t.start, t.end, "IF") && t.end < b.len() && b[t.end] == 32)
        } else {
            Ok(false)
        }
    }

    /// Continues reading at `pos`.
    fn seek(&mut self, pos: usize)
        requires
            old(self).wf(),
            pos <= old(self).src().len(),
        ensures
            *final(self) == (Parser {
                text: old(self).text,
                lx: Lexer { src: old(self).lx.src, pos, peeked: None },
                mode: old(self).mode,
                depth: old(self).depth,
            }),
            final(self).wf(),
            final(self).pos() == pos,
    {
        self.lx = Lexer { src: self.lx.src, pos, peeked: None };
    }

    fn enter(&mut self, pos: usize) -> (r: Result<(), ParseError>)
        requires
            old(self).wf(),
        ensures
            final(self).lx == old(self).lx,
            final(self).text == old(self).text,
            final(self).mode == old(self).mode,
            final(self).depth == old(self).depth + 1,
            r == (if old(self).depth + 1 > MAX_DEPTH {
                Err::<(), ParseError>(err_at(pos as int, ParseErrorKind::TooDeep))
            } else {
                Ok(())
            }),
    {
        self.depth += 1;
        if self.depth > MAX_DEPTH {
            return Err(perr(pos, ParseErrorKind::TooDeep));
        }
        Ok(())
    }

    fn leave(&mut self)
        requires
            old(self).depth > 0,
        ensures
            final(self).lx == old(self).lx,
            final(self).text == old(self).text,
            final(self).mode == old(self).mode,
            final(self).depth == old(self).depth - 1,
    {
        self.depth -= 1;
    }

    fn parse_expr(&mut self) -> (r: Result<Expr, ParseError>)
        requires
            old(self).wf(),
        ensures
            final(self).keeps(old(self), r is Ok),
            presult(r, final(self).pos()) == p_expr(old(self).src(), old(self).mode, old(self).pos(), old(self).depth as int),
        decreases lk(old(self).mode), old(self).src().len() - old(self).pos(), 9int,
    {
        let t = self.peek()?;
        self.enter(t.start)?;
        let r = self.parse_ternary();
        match r {
            Ok(e) => {
                self.leave();
                Ok(e)
            },
            Err(e) => Err(e),
        }
    }

    #[verifier::rlimit(40)]
    fn parse_ternary(&mut self) -> (r: Result<Expr, ParseError>)
        requires
            old(self).wf(),
        ensures
            final(self).keeps(old(self), r is Ok),
            presult(r, final(self).pos()) == p_ternary(old(self).src(), old(self).mode, old(self).pos(), old(self).depth as int),
        decreases lk(old(self).mode), old(self).src().len() - old(self).pos(), 8int,
    {
        let cond = self.parse_binary(0)?;
        let q = self.peek()?;
        if q.class != TokClass::Question {
            return Ok(cond);
        }
        proof {
            lemma_lex_bounds(self.src(), self.pos());
        }
        self.next()?;
        let then_e = self.parse_expr()?;
        let t = self.next()?;
        if !matches!(t.tok, Tok::Colon) {
            return Err(perr(t.start, ParseErrorKind::ExpectedTernaryColon));
        }
        let else_e = self.parse_expr()?;
        if self.mode.js_mode {
            Ok(Expr::Ternary(Box::new(cond), Box::new(then_e), Box::new(else_e)))
        } else {
            let end = self.peek()?.start;
            let ghost vc = cond@;
            let ghost va = then_e@;
            let ghost vb = else_e@;
            let mut args: Vec<Expr> = Vec::new();
            args.push(cond);
            args.push(then_e);
            args.push(else_e);
            proof {
                reveal_with_fuel(view_exprs, 4);
                assert(args@.drop_last().drop_last().drop_last() =~= Seq::<Expr>::empty());
                assert(view_exprs(args@) =~= seq![vc, va, vb]);
            }
            Ok(Expr::Call { name: lit_bytes("IF"), args, span: Span { start: q.start, end } })
        }
    }

    fn parse_binary(&mut self, min_bp: u8) -> (r: Result<Expr, ParseError>)
        requires
            old(self).wf(),
        ensures
            final(self).keeps(old(self), r is Ok),
            presult(r, final(self).pos()) == p_binary(old(self).src(), old(self).mode, old(self).pos(), old(self).depth as int, min_bp as int),
        decreases lk(old(self).mode), old(self).src().len() - old(self).pos(), 7int,
    {
        let ghost p0 = self.pos();
        let mut lhs = self.parse_unary()?;
        loop
            invariant
                self.wf(),
                self.lx.src == old(self).lx.src,
                self.text == old(self).text,
                self.mode == old(self).mode,
                self.depth == old(self).depth,
                p0 == old(self).pos(),
                p0 <= self.pos() <= self.src().len(),
                p_binary(self.src(), self.mode, p0, self.depth as int, min_bp as int)
                    == p_binary_rest(self.src(), self.mode, self.pos(), self.depth as int, min_bp as int, lhs@),
            decreases self.src().len() - self.pos(),
        {
            let ghost here = self.pos();
            let t = self.peek()?;
            proof {
                lemma_lex_bounds(self.src(), self.pos());
            }
            let info: Option<(BinOp, u8, bool)> = match t.class {
                TokClass::Op(k) => match k {
                    OpKind::OrOr => Some((BinOp::Or, 1, false)),
                    OpKind::AndAnd => Some((BinOp::And, 2, false)),
                    OpKind::Pipe => Some((BinOp::BitOr, 3, false)),
                    OpKind::Caret => Some((BinOp::BitXor, 4, false)),
                    OpKind::Amp => Some((BinOp::BitAnd, 5, false)),
                    OpKind::Eq => Some((BinOp::EqLoose, 6, false)),
                    OpKind::Ne => Some((BinOp::NeLoose, 6, false)),
                    OpKind::StrictEq => Some((BinOp::EqStrict, 6, false)),
                    OpKind::StrictNe => Some((BinOp::NeStrict, 6, false)),
                    OpKind::Lt => Some((BinOp::Lt, 7, false)),
                    OpKind::Gt => Some((BinOp::Gt, 7, false)),
                    OpKind::Le => Some((BinOp::Le, 7, false)),
                    OpKind::Ge => Some((BinOp::Ge, 7, false)),
                    OpKind::Shl => Some((BinOp::Shl, 8, false)),
                    OpKind::Shr => Some((BinOp::Shr, 8, false)),
                    OpKind::UShr => Some((BinOp::UShr, 8, false)),
                    OpKind::Plus => Some((BinOp::Add, 9, false)),
                    OpKind::Minus => Some((BinOp::Sub, 9, false)),
                    OpKind::Star => Some((BinOp::Mul, 10, false)),
                    OpKind::Slash => Some((BinOp::Div, 10, false)),
                    OpKind::Percent => Some((BinOp::Mod, 10, false)),
                    OpKind::StarStar => Some((BinOp::Pow, 11, true)),
                    _ => None,
                },
                _ => None,
            };
            let (op, l_bp, right_assoc) = match info {
                None => {
                    return Ok(lhs);
                },
                Some(x) => x,
            };
            if l_bp < min_bp {
                return Ok(lhs);
            }
            let op_tok = self.next()?;
            if op == BinOp::Pow && matches!(lhs, Expr::Unary(..)) {
                return Err(perr(op_tok.start, ParseErrorKind::UnaryPowOperand));
            }
            let next_min = if right_assoc { l_bp } else { l_bp + 1 };
            if right_assoc {
                // each level of a right-associative chain nests one deeper
                self.enter(op_tok.start)?;
            }
            let rhs = self.parse_binary(next_min)?;
            if right_assoc {
                self.leave();
            }
            lhs = Expr::Binary(op, Box::new(lhs), Box::new(rhs));
        }
    }

    fn parse_unary(&mut self) -> (r: Result<Expr, ParseError>)
        requires
            old(self).wf(),
        ensures
            final(self).keeps(old(self), r is Ok),
            presult(r, final(self).pos()) == p_unary(old(self).src(), old(self).mode, old(self).pos(), old(self).depth as int),
        decreases lk(old(self).mode), old(self).src().len() - old(self).pos(), 5int,
    {
        let t = self.peek()?;
        proof {
            lemma_lex_bounds(self.src(), self.pos());
        }
        let un = match t.class {
            TokClass::Op(OpKind::Minus) => Some(UnOp::Neg),
            TokClass::Op(OpKind::Plus) => Some(UnOp::Plus),
            TokClass::Op(OpKind::Bang) => Some(UnOp::Not),
            TokClass::Op(OpKind::Tilde) => Some(UnOp::BitNot),
            _ => None,
        };
        match un {
            Some(op) => {
                self.next()?;
                self.enter(t.start)?;
                let operand = self.parse_unary()?;
                self.leave();
                Ok(Expr::Unary(op, Box::new(operand)))
            },
            None => self.parse_primary(),
        }
    }

    fn parse_primary(&mut self) -> (r: Result<Expr, ParseError>)
        requires
            old(self).wf(),
        ensures
            final(self).keeps(old(self), r is Ok),
            presult(r, final(self).pos()) == p_primary(old(self).src(), old(self).mode, old(self).pos(), old(self).depth as int),
        decreases lk(old(self).mode), old(self).src().len() - old(self).pos(), 4int,
    {
        proof {
            lemma_lex_bounds(self.src(), self.pos());
        }
        let t = self.next()?;
        match t.tok {
            Tok::Num(n) => Ok(Expr::Num(n)),
            Tok::Str(s) => {
                let has_val_ref = contains_val_marker(s.as_slice());
                Ok(Expr::Str { s, has_val_ref })
            },
            Tok::ValRef(name) => Ok(Expr::ValRef { name, span: Span { start: t.start, end: t.end } }),
            Tok::Ident(name) => self.parse_ident_or_call(name, t.start, t.end),
            Tok::LParen => self.parse_group(t.start),
            Tok::LBracket => self.parse_bracket(t.start),
            Tok::Eof => Err(perr(t.start, ParseErrorKind::UnexpectedEnd)),
            Tok::RParen => Err(perr(t.start, ParseErrorKind::UnexpectedToken(Punct::RParen))),
            Tok::RBracket => Err(perr(t.start, ParseErrorKind::UnexpectedToken(Punct::RBracket))),
            Tok::Comma => Err(perr(t.start, ParseErrorKind::UnexpectedToken(Punct::Comma))),
            Tok::Colon => Err(perr(t.start, ParseErrorKind::UnexpectedToken(Punct::Colon))),
            Tok::Question => Err(perr(t.start, ParseErrorKind::UnexpectedToken(Punct::Question))),
            Tok::Op(k) => Err(perr(t.start, ParseErrorKind::UnexpectedToken(Punct::Op(k)))),
        }
    }

    #[verifier::spinoff_prover]
    #[verifier::rlimit(100)]
    fn parse_ident_or_call(&mut self, name: Vec<u8>, start: usize, end: usize) -> (r: Result<Expr, ParseError>)
        requires
            old(self).wf(),
            old(self).pos() == end,
            start <= end,
        ensures
            final(self).keeps(old(self), r is Ok),
            presult(r, final(self).pos()) == p_ident(old(self).src(), old(self).mode, end as int, old(self).depth as int, name@, start as int),
        decreases lk(old(self).mode), old(self).src().len() - end, 3int,
    {
        if eq_lit(name.as_slice(), "true") {
            return Ok(Expr::Bool(true));
        }
        if eq_lit(name.as_slice(), "false") {
            return Ok(Expr::Bool(false));
        }
        if eq_lit(name.as_slice(), "undefined") {
            return Ok(Expr::Undefined);
        }
        let t = self.peek()?;
        proof {
            lemma_lex_bounds(self.src(), self.pos());
        }
        if t.class != TokClass::LParen {
            return Ok(Expr::Ident { name, span: Span { start, end } });
        }
        proof {
            lemma_lparen(self.src(), self.pos());
        }
        let lparen = self.next()?;
        let upper = ascii_upper_exec(&name);
        let canonical = if is_canon_exec(&upper) { upper } else { name };
        if self.mode.lookup_special && (eq_lit(canonical.as_slice(), "LOOKUP") || eq_lit(canonical.as_slice(), "CLOSEST"))
            && lparen.start == end {
            return self.parse_lookup_call(canonical, start, lparen.end);
        }
        let p = self.peek()?;
        proof {
            lemma_lex_bounds(self.src(), self.pos());
        }
        let args = if p.class == TokClass::RParen {
            self.next()?;
            proof {
                assert(view_exprs(Seq::<Expr>::empty()) =~= Seq::<SpecExpr>::empty());
            }
            Vec::new()
        } else {
            self.parse_args()?
        };
        let call_end = self.peek()?.start;
        Ok(Expr::Call { name: canonical, args, span: Span { start, end: call_end } })
    }

    /// Arguments after `(` up to and including `)`.
    fn parse_args(&mut self) -> (r: Result<Vec<Expr>, ParseError>)
        requires
            old(self).wf(),
        ensures
            final(self).keeps(old(self), r is Ok),
            plist(r, final(self).pos()) == p_args(old(self).src(), old(self).mode, old(self).pos(), old(self).depth as int, Seq::empty()),
        decreases lk(old(self).mode), old(self).src().len() - old(self).pos(), 10int,
    {
        let mut args: Vec<Expr> = Vec::new();
        proof {
            assert(view_exprs(Seq::<Expr>::empty()) =~= Seq::<SpecExpr>::empty());
        }
        loop
            invariant
                self.wf(),
                self.lx.src == old(self).lx.src,
                self.text == old(self).text,
                self.mode == old(self).mode,
                self.depth == old(self).depth,
                old(self).pos() <= self.pos() <= self.src().len(),
                p_args(self.src(), self.mode, old(self).pos(), self.depth as int, Seq::empty())
                    == p_args(self.src(), self.mode, self.pos(), self.depth as int, view_exprs(args@)),
            decreases self.src().len() - self.pos(),
        {
            let e = self.parse_expr()?;
            proof {
                lemma_lex_bounds(self.src(), self.pos());
            }
            let sep = self.next()?;
            proof {
                lemma_view_exprs_push(args@, e);
            }
            args.push(e);
            match sep.tok {
                Tok::Comma => {},
                Tok::Colon => {
                    if self.mode.js_mode {
                        return Err(perr(sep.start, ParseErrorKind::ExpectedArgSeparator));
                    }
                },
                Tok::RParen => {
                    return Ok(args);
                },
                _ => {
                    return Err(perr(sep.start, ParseErrorKind::ExpectedArgSeparator));
                },
            }
        }
    }

    /// Parenthesized expression or sequence; `start` is the `(`.
    #[verifier::rlimit(100)]
    fn parse_group(&mut self, start: usize) -> (r: Result<Expr, ParseError>)
        requires
            old(self).wf(),
        ensures
            final(self).keeps(old(self), r is Ok),
            presult(r, final(self).pos()) == p_group(old(self).src(), old(self).mode, old(self).pos(), old(self).depth as int, start as int),
        decreases lk(old(self).mode), old(self).src().len() - old(self).pos(), 11int,
    {
        self.enter(start)?;
        let first = self.parse_expr()?;
        let mut items: Vec<Expr> = Vec::new();
        proof {
            lemma_view_exprs_push(Seq::<Expr>::empty(), first);
            assert(view_exprs(Seq::<Expr>::empty()) =~= Seq::<SpecExpr>::empty());
            assert(Seq::<Expr>::empty().push(first) =~= seq![first]);
        }
        items.push(first);
        loop
            invariant
                self.wf(),
                self.lx.src == old(self).lx.src,
                self.text == old(self).text,
                self.mode == old(self).mode,
                self.depth == old(self).depth + 1,
                old(self).pos() <= self.pos() <= self.src().len(),
                items@.len() >= 1,
                p_group(self.src(), self.mode, old(self).pos(), old(self).depth as int, start as int)
                    == p_group_rest(self.src(), self.mode, self.pos(), self.depth as int, view_exprs(items@)),
            decreases self.src().len() - self.pos(),
        {
            proof {
                lemma_lex_bounds(self.src(), self.pos());
            }
            let t = self.next()?;
            let more = match t.tok {
                Tok::RParen => false,
                Tok::Comma => true,
                Tok::Colon => {
                    if self.mode.js_mode {
                        return Err(perr(t.start, ParseErrorKind::ExpectedGroupClose));
                    }
                    true
                },
                _ => {
                    return Err(perr(t.start, ParseErrorKind::ExpectedGroupClose));
                },
            };
            if !more {
                self.leave();
                proof {
                    lemma_view_exprs_len(items@);
                    if items@.len() == 1 {
                        lemma_view_exprs_index(items@, 0);
                    }
                }
                if items.len() == 1 {
                    let e = items.pop().unwrap();
                    return Ok(e);
                } else {
                    return Ok(Expr::Sequence(items));
                }
            }
            let e = self.parse_expr()?;
            proof {
                lemma_view_exprs_push(items@, e);
            }
            items.push(e);
        }
    }

    /// Bracket group; `start` is the `[`.
    #[verifier::rlimit(40)]
    fn parse_bracket(&mut self, start: usize) -> (r: Result<Expr, ParseError>)
        requires
            old(self).wf(),
        ensures
            final(self).keeps(old(self), r is Ok),
            presult(r, final(self).pos()) == p_bracket(old(self).src(), old(self).mode, old(self).pos(), old(self).depth as int, start as int),
        decreases lk(old(self).mode), old(self).src().len() - old(self).pos(), 11int,
    {
        self.enter(start)?;
        let mut items: Vec<Expr> = Vec::new();
        proof {
            assert(view_exprs(Seq::<Expr>::empty()) =~= Seq::<SpecExpr>::empty());
        }
        let p = self.peek()?;
        proof {
            lemma_lex_bounds(self.src(), self.pos());
        }
        if p.class == TokClass::RBracket {
            self.next()?;
            self.leave();
            return Ok(Expr::Bracket(items));
        }
        loop
            invariant
                self.wf(),
                self.lx.src == old(self).lx.src,
                self.text == old(self).text,
                self.mode == old(self).mode,
                self.depth == old(self).depth + 1,
                old(self).pos() <= self.pos() <= self.src().len(),
                p_bracket(self.src(), self.mode, old(self).pos(), old(self).depth as int, start as int)
                    == p_bracket_rest(self.src(), self.mode, self.pos(), self.depth as int, view_exprs(items@)),
            decreases self.src().len() - self.pos(),
        {
            let e = self.parse_expr()?;
            proof {
                lemma_lex_bounds(self.src(), self.pos());
                lemma_view_exprs_push(items@, e);
            }
            let t = self.next()?;
            items.push(e);
            match t.tok {
                Tok::RBracket => {
                    self.leave();
                    return Ok(Expr::Bracket(items));
                },
                Tok::Comma => {},
                _ => {
                    return Err(perr(t.start, ParseErrorKind::ExpectedBracketSeparator));
                },
            }
        }
    }

    /// The re-read argument list of a LOOKUP/CLOSEST call: expressions
    /// separated by `,` up to the end of the text.
    fn parse_lookup_list(&mut self, call_start: usize) -> (r: Result<Vec<Expr>, ParseError>)
        requires
            old(self).wf(),
            old(self).depth == 0,
        ensures
            match r {
                Ok(v) => p_lookup_list(old(self).src(), old(self).mode, old(self).pos(), Seq::empty(), call_start as int)
                    == Ok::<Seq<SpecExpr>, ParseError>(view_exprs(v@)),
                Err(e) => p_lookup_list(old(self).src(), old(self).mode, old(self).pos(), Seq::empty(), call_start as int)
                    == Err::<Seq<SpecExpr>, ParseError>(e),
            },
        decreases lk(old(self).mode), old(self).src().len() - old(self).pos(), 12int,
    {
        let mut args: Vec<Expr> = Vec::new();
        proof {
            assert(view_exprs(Seq::<Expr>::empty()) =~= Seq::<SpecExpr>::empty());
        }
        loop
            invariant
                self.wf(),
                self.lx.src == old(self).lx.src,
                self.mode == old(self).mode,
                self.depth == 0,
                old(self).pos() <= self.pos() <= self.src().len(),
                p_lookup_list(self.src(), self.mode, old(self).pos(), Seq::empty(), call_start as int)
                    == p_lookup_list(self.src(), self.mode, self.pos(), view_exprs(args@), call_start as int),
            decreases self.src().len() - self.pos(),
        {
            let e = match self.parse_expr() {
                Ok(e) => e,
                Err(er) => {
                    return Err(reloc(er, call_start));
                },
            };
            proof {
                lemma_lex_bounds(self.src(), self.pos());
                lemma_view_exprs_push(args@, e);
            }
            let t = match self.next() {
                Ok(t) => t,
                Err(er) => {
                    return Err(reloc(er, call_start));
                },
            };
            args.push(e);
            match t.tok {
                Tok::Comma => {},
                Tok::Eof => {
                    return Ok(args);
                },
                _ => {
                    return Err(perr(call_start, ParseErrorKind::InvalidLookupArgs));
                },
            }
        }
    }


    /// Condition list of a natural IF, up to `THEN`.
    fn parse_if_cond(&mut self, init: Vec<Expr>) -> (r: Result<Vec<Expr>, ParseError>)
        requires
            old(self).wf(),
        ensures
            final(self).keeps(old(self), r is Ok),
            plist(r, final(self).pos()) == p_if_cond(old(self).src(), old(self).mode, old(self).pos(), old(self).depth as int, view_exprs(init@)),
    {
        let mut args = init;
        loop
            invariant
                self.wf(),
                self.lx.src == old(self).lx.src,
                self.text == old(self).text,
                self.mode == old(self).mode,
                self.depth == old(self).depth,
                old(self).pos() <= self.pos() <= self.src().len(),
                p_if_cond(self.src(), self.mode, old(self).pos(), self.depth as int, view_exprs(init@))
                    == p_if_cond(self.src(), self.mode, self.pos(), self.depth as int, view_exprs(args@)),
            decreases self.src().len() - self.pos(),
        {
            if self.at_keyword("THEN")? {
                return Ok(args);
            }
            let e = self.parse_expr()?;
            proof {
                lemma_lex_bounds(self.src(), self.pos());
                lemma_view_exprs_push(args@, e);
            }
            let t = self.peek()?;
            args.push(e);
            if t.class != TokClass::Comma {
                return Ok(args);
            }
            self.next()?;
        }
    }


    /// THEN list of a natural IF, up to `ELSE` or the end.
    fn parse_if_then(&mut self, init: Vec<Expr>) -> (r: Result<Vec<Expr>, ParseError>)
        requires
            old(self).wf(),
        ensures
            final(self).keeps(old(self), r is Ok),
            plist(r, final(self).pos()) == p_if_then(old(self).src(), old(self).mode, old(self).pos(), old(self).depth as int, view_exprs(init@)),
    {
        let mut args = init;
        loop
            invariant
                self.wf(),
                self.lx.src == old(self).lx.src,
                self.text == old(self).text,
                self.mode == old(self).mode,
                self.depth == old(self).depth,
                old(self).pos() <= self.pos() <= self.src().len(),
                p_if_then(self.src(), self.mode, old(self).pos(), self.depth as int, view_exprs(init@))
                    == p_if_then(self.src(), self.mode, self.pos(), self.depth as int, view_exprs(args@)),
            decreases self.src().len() - self.pos(),
        {
            if self.at_keyword("ELSE")? {
                return Ok(args);
            }
            let t0 = self.peek()?;
            if t0.class == TokClass::Eof {
                return Ok(args);
            }
            let e = self.parse_expr()?;
            proof {
                lemma_lex_bounds(self.src(), self.pos());
                lemma_view_exprs_push(args@, e);
            }
            let t = self.peek()?;
            args.push(e);
            if t.class != TokClass::Comma {
                return Ok(args);
            }
            self.next()?;
        }
    }

    /// ELSE list of a natural IF: expressions separated by `,`.
    fn parse_if_else(&mut self, init: Vec<Expr>) -> (r: Result<Vec<Expr>, ParseError>)
        requires
            old(self).wf(),
        ensures
            final(self).keeps(old(self), r is Ok),
            plist(r, final(self).pos()) == p_if_else(old(self).src(), old(self).mode, old(self).pos(), old(self).depth as int, view_exprs(init@)),
    {
        let mut args = init;
        loop
            invariant
                self.wf(),
                self.lx.src == old(self).lx.src,
                self.text == old(self).text,
                self.mode == old(self).mode,
                self.depth == old(self).depth,
                old(self).pos() <= self.pos() <= self.src().len(),
                p_if_else(self.src(), self.mode, old(self).pos(), self.depth as int, view_exprs(init@))
                    == p_if_else(self.src(), self.mode, self.pos(), self.depth as int, view_exprs(args@)),
            decreases self.src().len() - self.pos(),
        {
            let e = self.parse_expr()?;
            proof {
                lemma_lex_bounds(self.src(), self.pos());
                lemma_view_exprs_push(args@, e);
            }
            let t = self.peek()?;
            args.push(e);
            if t.class != TokClass::Comma {
                return Ok(args);
            }
            self.next()?;
        }
    }


    /// Natural `IF cond… THEN a… [ELSE b… | ELSE IF …]`: an `IF(...)` call
    /// with the lists flattened into its arguments and a literal `0` for a
    /// missing ELSE.
    #[verifier::spinoff_prover]
    #[verifier::rlimit(100)]
    fn parse_natural_if(&mut self) -> (r: Result<Expr, ParseError>)
        requires
            old(self).wf(),
            at_natural_if(old(self).src(), old(self).pos()) == Ok::<bool, ParseError>(true),
        ensures
            final(self).keeps(old(self), r is Ok),
            presult(r, final(self).pos()) == p_natural_if(old(self).src(), old(self).mode, old(self).pos(), old(self).depth as int),
        decreases old(self).src().len() - old(self).pos(),
    {
        let ghost src = self.src();
        let ghost m = self.mode;
        let ghost pos0 = self.pos();
        proof {
            lemma_lex_bounds(src, pos0);
        }
        let if_tok = self.next()?;
        let start = if_tok.start;
        self.enter(start)?;
        let args = self.parse_if_cond(Vec::new())?;
        proof {
            assert(view_exprs(Seq::<Expr>::empty()) =~= Seq::<SpecExpr>::empty());
        }
        if !self.at_keyword("THEN")? {
            let t = self.peek()?;
            return Err(perr(t.start, ParseErrorKind::ExpectedThen));
        }
        proof {
            lemma_view_exprs_len(args@);
        }
        if args.len() == 0 {
            let t = self.peek()?;
            return Err(perr(t.start, ParseErrorKind::EmptyIfCondition));
        }
        proof {
            lemma_lex_bounds(self.src(), self.pos());
        }
        self.next()?;
        let then_start = args.len();
        let ghost cond_args = args@;
        let mut args = self.parse_if_then(args)?;
        proof {
            lemma_view_exprs_len(cond_args);
            lemma_view_exprs_len(args@);
        }
        if args.len() == then_start {
            let t = self.peek()?;
            return Err(perr(t.start, ParseErrorKind::EmptyThenBranch));
        }
        let ghost p3 = self.pos();
        if self.at_keyword("ELSE")? {
            proof {
                lemma_lex_bounds(self.src(), self.pos());
            }
            self.next()?;
            if self.at_natural_if()? {
                let nested = self.parse_natural_if()?;
                proof {
                    lemma_view_exprs_push(args@, nested);
                }
                args.push(nested);
            } else {
                args = self.parse_if_else(args)?;
            }
        } else {
            let zero = Expr::Num(NumLit::Decimal(lit_bytes("0")));
            proof {
                lemma_view_exprs_push(args@, zero);
            }
            args.push(zero);
        }
        self.leave();
        let end = self.peek()?.start;
        Ok(Expr::Call { name: lit_bytes("IF"), args, span: Span { start, end } })
    }


    /// Top-level comma expression after its first element.
    fn parse_prog_rest(&mut self, first: Expr) -> (r: Result<Expr, ParseError>)
        requires
            old(self).wf(),
            old(self).depth == 0,
        ensures
            final(self).keeps(old(self), r is Ok),
            presult(r, final(self).pos()) == p_prog_rest(old(self).src(), old(self).mode, old(self).pos(), seq![first@]),
    {
        let mut items: Vec<Expr> = Vec::new();
        proof {
            lemma_view_exprs_push(Seq::<Expr>::empty(), first);
            assert(view_exprs(Seq::<Expr>::empty()) =~= Seq::<SpecExpr>::empty());
            assert(view_exprs(Seq::<Expr>::empty().push(first)) =~= seq![first@]);
        }
        items.push(first);
        loop
            invariant
                self.wf(),
                self.lx.src == old(self).lx.src,
                self.text == old(self).text,
                self.mode == old(self).mode,
                self.depth == 0,
                old(self).depth == 0,
                old(self).pos() <= self.pos() <= self.src().len(),
                items@.len() >= 1,
                p_prog_rest(self.src(), self.mode, old(self).pos(), seq![first@])
                    == p_prog_rest(self.src(), self.mode, self.pos(), view_exprs(items@)),
            decreases self.src().len() - self.pos(),
        {
            proof {
                lemma_lex_bounds(self.src(), self.pos());
            }
            let t = self.peek()?;
            if t.class != TokClass::Comma {
                proof {
                    lemma_view_exprs_len(items@);
                    if items@.len() == 1 {
                        lemma_view_exprs_index(items@, 0);
                    }
                }
                if items.len() == 1 {
                    let e = items.pop().unwrap();
                    return Ok(e);
                } else {
                    return Ok(Expr::Sequence(items));
                }
            }
            self.next()?;
            let e = self.parse_expr()?;
            proof {
                lemma_view_exprs_push(items@, e);
            }
            items.push(e);
        }
    }

    /// A whole program: empty (undefined), a natural IF (dialect only), or a
    /// comma expression; nothing may follow.
    #[verifier::spinoff_prover]
    #[verifier::rlimit(100)]
    fn parse_program(&mut self) -> (r: Result<Expr, ParseError>)
        requires
            old(self).wf(),
            old(self).depth == 0,
            old(self).pos() == 0,
        ensures
            match r {
                Ok(e) => p_program(old(self).src(), old(self).mode) == Ok::<SpecExpr, ParseError>(e@),
                Err(e) => p_program(old(self).src(), old(self).mode) == Err::<SpecExpr, ParseError>(e),
            },
    {
        let ghost src = self.src();
        proof {
            lemma_lex_bounds(src, 0);
        }
        let t = self.peek()?;
        if t.class == TokClass::Eof {
            return Ok(Expr::Undefined);
        }
        let natural = if self.mode.js_mode {
            false
        } else {
            self.at_natural_if()?
        };
        let expr = if natural {
            self.parse_natural_if()?
        } else {
            let first = self.parse_expr()?;
            self.parse_prog_rest(first)?
        };
        proof {
            lemma_lex_bounds(self.src(), self.pos());
        }
        let t2 = self.peek()?;
        if t2.class != TokClass::Eof {
            return Err(perr(t2.start, ParseErrorKind::TrailingInput));
        }
        Ok(expr)
    }

    /// The arguments of a LOOKUP/CLOSEST call whose `(` ends at
    /// `args_start`, with the index of its `)`.
    fn lookup_call_args(&self, call_start: usize, args_start: usize) -> (r: Result<(Vec<Expr>, usize), ParseError>)
        requires
            self.wf(),
            self.mode.lookup_special,
            1 <= args_start <= self.src().len(),
            self.src()[args_start - 1] == 40,
        ensures
            match r {
                Ok((v, i)) => {
                    &&& args_start <= i < self.src().len()
                    &&& match_paren(self.src(), args_start as int, 1) == Some(i as int)
                    &&& lookup_args(lookup_source(self.src(), args_start as int, i as int), self.mode.js_mode, call_start as int)
                        == Ok::<Seq<SpecExpr>, ParseError>(view_exprs(v@))
                },
                Err(e) => match match_paren(self.src(), args_start as int, 1) {
                    None => e == err_at(call_start as int, ParseErrorKind::UnbalancedLookup),
                    Some(i) => args_start <= i && lookup_args(lookup_source(self.src(), args_start as int, i), self.mode.js_mode, call_start as int)
                        == Err::<Seq<SpecExpr>, ParseError>(e),
                },
            },
        decreases 1int, self.src().len() - args_start, 1int,
    {
        let i = match find_close_paren(self.lx.src, args_start) {
            Some(i) => i,
            None => {
                return Err(perr(call_start, ParseErrorKind::UnbalancedLookup));
            },
        };
        let processed = lookup_args_text(self.text, args_start, i);
        let args = parse_lookup_text(processed.as_str(), self.mode.js_mode, call_start)?;
        Ok((args, i))
    }

    /// The LOOKUP/CLOSEST call whose `(` ends at `args_start`, with the
    /// position after its `)`.
    fn lookup_call(&self, name: Vec<u8>, call_start: usize, args_start: usize) -> (r: Result<(Expr, usize), ParseError>)
        requires
            self.wf(),
            self.mode.lookup_special,
            1 <= args_start <= self.src().len(),
            self.src()[args_start - 1] == 40,
        ensures
            match r {
                Ok((e, end)) => args_start <= end <= self.src().len()
                    && p_lookup_call(self.src(), self.mode, name@, call_start as int, args_start as int)
                    == Ok::<(SpecExpr, int), ParseError>((e@, end as int)),
                Err(e) => p_lookup_call(self.src(), self.mode, name@, call_start as int, args_start as int)
                    == Err::<(SpecExpr, int), ParseError>(e),
            },
        decreases 1int, self.src().len() - args_start, 2int,
    {
        let ghost src = self.src();
        let ghost m = self.mode;
        match self.lookup_call_args(call_start, args_start) {
            Err(e) => {
                proof {
                    match match_paren(src, args_start as int, 1) {
                        None => lemma_lookup_call_unbalanced(src, m, name@, call_start as int, args_start as int),
                        Some(i) => lemma_lookup_call(src, m, name@, call_start as int, args_start as int, i),
                    }
                }
                Err(e)
            },
            Ok((args, i)) => {
                proof {
                    lemma_lookup_call(src, m, name@, call_start as int, args_start as int, i as int);
                }
                let n = self.lx.src.len();
                assert(i < n);
                Ok((Expr::Call { name, args, span: Span { start: call_start, end: i + 1 } }, i + 1))
            },
        }
    }

    /// LOOKUP/CLOSEST call: finds the matching `)` by a plain parenthesis
    /// count, segments the raw argument text and reads the result again as
    /// a comma-separated argument list.
    fn parse_lookup_call(&mut self, name: Vec<u8>, call_start: usize, args_start: usize) -> (r: Result<Expr, ParseError>)
        requires
            old(self).wf(),
            old(self).pos() == args_start,
            old(self).mode.lookup_special,
            1 <= args_start <= old(self).src().len(),
            old(self).src()[args_start - 1] == 40,
        ensures
            final(self).keeps(old(self), r is Ok),
            presult(r, final(self).pos()) == p_lookup_call(old(self).src(), old(self).mode, name@, call_start as int, args_start as int),
        decreases lk(old(self).mode), old(self).src().len() - args_start, 3int,
    {
        match self.lookup_call(name, call_start, args_start) {
            Err(e) => Err(e),
            Ok((e, end)) => {
                self.seek(end);
                Ok(e)
            },
        }
    }
} // impl Parser


/// Compiles an expression of the full dialect to a tree.
pub fn compile(source: &str) -> (r: Result<Ast, ParseError>)
    ensures
        match r {
            Ok(a) => spec_compile(source.spec_bytes()) == Ok::<SpecExpr, ParseError>(a.root@) && a.source@ == source@,
            Err(e) => spec_compile(source.spec_bytes()) == Err::<SpecExpr, ParseError>(e),
        },
{
    proof {
        encode_utf8_valid_utf8(source@);
    }
    let mut p = Parser::new(source, Mode { lookup_special: true, js_mode: false });
    let root = p.parse_program()?;
    Ok(Ast { root, source: source.to_owned() })
}

/// Compiles in raw-JS mode (the string argument of `ZEROREF`): no colon
/// separators, no natural IF, no LOOKUP segmentation, and `? :` is a real
/// lazy ternary.
pub fn compile_js(source: &str) -> (r: Result<Ast, ParseError>)
    ensures
        match r {
            Ok(a) => spec_compile_js(source.spec_bytes()) == Ok::<SpecExpr, ParseError>(a.root@) && a.source@ == source@,
            Err(e) => spec_compile_js(source.spec_bytes()) == Err::<SpecExpr, ParseError>(e),
        },
{
    let mut p = Parser::new(source, Mode { lookup_special: false, js_mode: true });
    let root = p.parse_program()?;
    Ok(Ast { root, source: source.to_owned() })
}


/// The segmented argument text of the LOOKUP/CLOSEST call whose `(` ends at
/// `open` in `source` (as the parser reads it again); `None` when the byte
/// before `open` is not `(` or the parenthesis is never closed.
pub fn lookup_arg_text(source: &str, open: usize) -> (r: Option<String>)
    ensures
        match r {
            Some(p) => {
                &&& 1 <= open <= source.spec_bytes().len()
                &&& source.spec_bytes()[open - 1] == 40
                &&& match_paren(source.spec_bytes(), open as int, 1) matches Some(i)
                    && encode_utf8(p@) == lookup_source(source.spec_bytes(), open as int, i)
            },
            None => !(1 <= open <= source.spec_bytes().len() && source.spec_bytes()[open - 1] == 40)
                || match_paren(source.spec_bytes(), open as int, 1) is None,
        },
{
    let b = source.as_bytes();
    if !(1 <= open && open <= b.len() && b[open - 1] == 40) {
        return None;
    }
    proof {
        encode_utf8_valid_utf8(source@);
    }
    match find_close_paren(b, open) {
        None => None,
        Some(i) => Some(lookup_args_text(source, open, i)),
    }
}

} // verus!
