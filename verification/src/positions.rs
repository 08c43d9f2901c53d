//! Where parse results and parse errors point: every step of the grammar
//! ends inside the source, every error it reports names a byte position of
//! the source (or its end), and an error from the argument text of a
//! LOOKUP/CLOSEST call names the start of that call.
use vstd::prelude::*;
use vstd::string::*;
use crate::ast::SpecExpr;
use crate::lexer::{SpecTok, spec_lex, lemma_lex_bounds, lemma_lex_err};
use crate::parse::{
    Mode, ParseError, PList, PRes, call_name, lk, lookup_args, lookup_source, match_paren, p_args,
    p_binary, p_binary_rest, p_bracket, p_bracket_rest, p_expr, p_group, p_group_rest,
    p_ident, p_if_cond, p_if_else, p_if_then, p_lookup_call, p_lookup_list, p_natural_if,
    p_primary, p_program, p_prog_rest, p_ternary, p_unary, spec_compile, spec_compile_js,
    binop_info, unop_of,
};

verus! {

/// The token at `p` starts at `p` and names LOOKUP or CLOSEST (in any
/// letter case).
pub open spec fn lookup_call_at(src: Seq<u8>, p: int) -> bool {
    match spec_lex(src, p) {
        Ok(t) => t.start == p && match t.tok {
            SpecTok::Ident(w) => call_name(w) == "LOOKUP".spec_bytes() || call_name(w)
                == "CLOSEST".spec_bytes(),
            _ => false,
        },
        Err(_) => false,
    }
}

/// An error of a parse of `src` in mode `m` points into the source, and one
/// from LOOKUP/CLOSEST argument text (only with segmentation on) points at
/// the start of such a call.
spec fn err_ok(src: Seq<u8>, m: Mode, e: ParseError) -> bool {
    src.len() <= usize::MAX ==> {
        &&& e.pos <= src.len()
        &&& e.in_lookup ==> m.lookup_special && lookup_call_at(src, e.pos as int)
    }
}

/// A result that starts at `pos` stays inside the source: a success ends
/// between `pos` and the end, an error satisfies `err_ok`.
spec fn res_within(src: Seq<u8>, m: Mode, r: PRes, pos: int) -> bool {
    match r {
        Ok((_, p)) => pos <= p <= src.len(),
        Err(e) => err_ok(src, m, e),
    }
}

/// `res_within` for argument lists.
spec fn list_within(src: Seq<u8>, m: Mode, r: PList, pos: int) -> bool {
    match r {
        Ok((_, p)) => pos <= p <= src.len(),
        Err(e) => err_ok(src, m, e),
    }
}

/// The next token lies between `pos` and the end; a lexer error points into
/// the source.
proof fn lemma_lex_within(src: Seq<u8>, pos: int)
    requires
        0 <= pos <= src.len(),
    ensures
        spec_lex(src, pos) matches Ok(t) ==> pos <= t.start <= t.end <= src.len() && (
        t.tok is Eof || t.start < t.end) && spec_lex(src, t.start) == spec_lex(src, pos),
        spec_lex(src, pos) matches Err(e) ==> (src.len() <= usize::MAX ==> e.pos <= src.len()
            && !e.in_lookup),
{
    lemma_lex_bounds(src, pos);
    if src.len() <= usize::MAX {
        lemma_lex_err(src, pos);
    }
}

/// A matching `)` lies between the start of the search and the end.
proof fn lemma_match_paren(src: Seq<u8>, i: int, depth: int)
    ensures
        match_paren(src, i, depth) matches Some(k) ==> 0 <= i <= k < src.len(),
    decreases src.len() - i,
{
    if 0 <= i < src.len() {
        let d = if src[i] == 40 { depth + 1 } else if src[i] == 41 { depth - 1 } else { depth };
        if d != 0 {
            lemma_match_paren(src, i + 1, d);
        }
    }
}

proof fn lemma_expr(src: Seq<u8>, m: Mode, pos: int, depth: int)
    requires
        0 <= pos <= src.len(),
    ensures
        res_within(src, m, p_expr(src, m, pos, depth), pos),
    decreases lk(m), src.len() - pos, 9int,
{
    lemma_lex_within(src, pos);
    lemma_ternary(src, m, pos, depth + 1);
}

proof fn lemma_ternary(src: Seq<u8>, m: Mode, pos: int, depth: int)
    requires
        0 <= pos <= src.len(),
    ensures
        res_within(src, m, p_ternary(src, m, pos, depth), pos),
    decreases lk(m), src.len() - pos, 8int,
{
    lemma_binary(src, m, pos, depth, 0);
    if let Ok((c, p1)) = p_binary(src, m, pos, depth, 0) {
        lemma_lex_within(src, p1);
        if let Ok(t) = spec_lex(src, p1) {
            if t.tok is Question {
                lemma_expr(src, m, t.end, depth);
                if let Ok((a, p2)) = p_expr(src, m, t.end, depth) {
                    lemma_lex_within(src, p2);
                    if let Ok(t2) = spec_lex(src, p2) {
                        if t2.tok is Colon {
                            lemma_expr(src, m, t2.end, depth);
                            if let Ok((b, p3)) = p_expr(src, m, t2.end, depth) {
                                lemma_lex_within(src, p3);
                            }
                        }
                    }
                }
            }
        }
    }
}

proof fn lemma_binary(src: Seq<u8>, m: Mode, pos: int, depth: int, min_bp: int)
    requires
        0 <= pos <= src.len(),
    ensures
        res_within(src, m, p_binary(src, m, pos, depth, min_bp), pos),
    decreases lk(m), src.len() - pos, 7int,
{
    lemma_unary(src, m, pos, depth);
    if let Ok((lhs, p1)) = p_unary(src, m, pos, depth) {
        lemma_binary_rest(src, m, p1, depth, min_bp, lhs);
    }
}

proof fn lemma_binary_rest(
    src: Seq<u8>,
    m: Mode,
    pos: int,
    depth: int,
    min_bp: int,
    lhs: SpecExpr,
)
    requires
        0 <= pos <= src.len(),
    ensures
        res_within(src, m, p_binary_rest(src, m, pos, depth, min_bp, lhs), pos),
    decreases lk(m), src.len() - pos, 6int,
{
    lemma_lex_within(src, pos);
    if let Ok(t) = spec_lex(src, pos) {
        if let Some((op, l_bp, right_assoc)) = binop_info(t.tok) {
            let next_bp = if right_assoc { l_bp } else { l_bp + 1 };
            let next_depth = if right_assoc { depth + 1 } else { depth };
            lemma_binary(src, m, t.end, next_depth, next_bp);
            if let Ok((rhs, p2)) = p_binary(src, m, t.end, next_depth, next_bp) {
                lemma_binary_rest(
                    src,
                    m,
                    p2,
                    depth,
                    min_bp,
                    SpecExpr::Binary(op, Box::new(lhs), Box::new(rhs)),
                );
            }
        }
    }
}

proof fn lemma_unary(src: Seq<u8>, m: Mode, pos: int, depth: int)
    requires
        0 <= pos <= src.len(),
    ensures
        res_within(src, m, p_unary(src, m, pos, depth), pos),
    decreases lk(m), src.len() - pos, 5int,
{
    lemma_lex_within(src, pos);
    if let Ok(t) = spec_lex(src, pos) {
        if unop_of(t.tok) is Some {
            lemma_unary(src, m, t.end, depth + 1);
        } else {
            lemma_primary(src, m, pos, depth);
        }
    }
}

proof fn lemma_primary(src: Seq<u8>, m: Mode, pos: int, depth: int)
    requires
        0 <= pos <= src.len(),
    ensures
        res_within(src, m, p_primary(src, m, pos, depth), pos),
    decreases lk(m), src.len() - pos, 4int,
{
    lemma_lex_within(src, pos);
    if let Ok(t) = spec_lex(src, pos) {
        match t.tok {
            SpecTok::Ident(name) => lemma_ident(src, m, t.end, depth, name, t.start),
            SpecTok::LParen => lemma_group(src, m, t.end, depth, t.start),
            SpecTok::LBracket => lemma_bracket(src, m, t.end, depth, t.start),
            _ => {},
        }
    }
}

#[verifier::spinoff_prover]
#[verifier::rlimit(40)]
proof fn lemma_ident(src: Seq<u8>, m: Mode, pos: int, depth: int, name: Seq<u8>, start: int)
    requires
        0 <= start <= pos <= src.len(),
        spec_lex(src, start) matches Ok(t) && t.start == start && t.tok == SpecTok::Ident(name),
    ensures
        res_within(src, m, p_ident(src, m, pos, depth, name, start), pos),
    decreases lk(m), src.len() - pos, 3int,
{
    lemma_lex_within(src, pos);
    if let Ok(t) = spec_lex(src, pos) {
        if t.tok is LParen {
            let canonical = call_name(name);
            if canonical == "LOOKUP".spec_bytes() || canonical == "CLOSEST".spec_bytes() {
                lemma_lookup_call(src, m, canonical, start, t.end);
            }
            lemma_lex_within(src, t.end);
            if let Ok(t2) = spec_lex(src, t.end) {
                lemma_lex_within(src, t2.end);
            }
            lemma_args(src, m, t.end, depth, Seq::empty());
            if let Ok((args, p2)) = p_args(src, m, t.end, depth, Seq::empty()) {
                lemma_lex_within(src, p2);
            }
        }
    }
}

proof fn lemma_args(src: Seq<u8>, m: Mode, pos: int, depth: int, args: Seq<SpecExpr>)
    requires
        0 <= pos <= src.len(),
    ensures
        list_within(src, m, p_args(src, m, pos, depth, args), pos),
    decreases lk(m), src.len() - pos, 10int,
{
    lemma_expr(src, m, pos, depth);
    if let Ok((e, p1)) = p_expr(src, m, pos, depth) {
        lemma_lex_within(src, p1);
        if let Ok(sep) = spec_lex(src, p1) {
            if sep.tok is Comma || sep.tok is Colon {
                lemma_args(src, m, sep.end, depth, args.push(e));
            }
        }
    }
}

proof fn lemma_group(src: Seq<u8>, m: Mode, pos: int, depth: int, start: int)
    requires
        0 <= start <= pos <= src.len(),
    ensures
        res_within(src, m, p_group(src, m, pos, depth, start), pos),
    decreases lk(m), src.len() - pos, 11int,
{
    lemma_expr(src, m, pos, depth + 1);
    if let Ok((e, p1)) = p_expr(src, m, pos, depth + 1) {
        lemma_group_rest(src, m, p1, depth + 1, seq![e]);
    }
}

proof fn lemma_group_rest(src: Seq<u8>, m: Mode, pos: int, depth: int, items: Seq<SpecExpr>)
    requires
        0 <= pos <= src.len(),
    ensures
        res_within(src, m, p_group_rest(src, m, pos, depth, items), pos),
    decreases lk(m), src.len() - pos, 10int,
{
    lemma_lex_within(src, pos);
    if let Ok(t) = spec_lex(src, pos) {
        if t.tok is Comma || t.tok is Colon {
            lemma_expr(src, m, t.end, depth);
            if let Ok((e, p1)) = p_expr(src, m, t.end, depth) {
                lemma_group_rest(src, m, p1, depth, items.push(e));
            }
        }
    }
}

proof fn lemma_bracket(src: Seq<u8>, m: Mode, pos: int, depth: int, start: int)
    requires
        0 <= start <= pos <= src.len(),
    ensures
        res_within(src, m, p_bracket(src, m, pos, depth, start), pos),
    decreases lk(m), src.len() - pos, 11int,
{
    lemma_lex_within(src, pos);
    lemma_bracket_rest(src, m, pos, depth + 1, Seq::empty());
}

proof fn lemma_bracket_rest(src: Seq<u8>, m: Mode, pos: int, depth: int, items: Seq<SpecExpr>)
    requires
        0 <= pos <= src.len(),
    ensures
        res_within(src, m, p_bracket_rest(src, m, pos, depth, items), pos),
    decreases lk(m), src.len() - pos, 10int,
{
    lemma_expr(src, m, pos, depth);
    if let Ok((e, p1)) = p_expr(src, m, pos, depth) {
        lemma_lex_within(src, p1);
        if let Ok(t) = spec_lex(src, p1) {
            if t.tok is Comma {
                lemma_bracket_rest(src, m, t.end, depth, items.push(e));
            }
        }
    }
}

/// A LOOKUP/CLOSEST call ends inside the source; its errors point at the
/// call (or into the source).
proof fn lemma_lookup_call(
    src: Seq<u8>,
    m: Mode,
    name: Seq<u8>,
    call_start: int,
    args_start: int,
)
    requires
        0 <= call_start <= args_start <= src.len(),
        lookup_call_at(src, call_start),
    ensures
        res_within(src, m, p_lookup_call(src, m, name, call_start, args_start), args_start),
    decreases lk(m), src.len() - args_start, 2int,
{
    reveal(p_lookup_call);
    lemma_match_paren(src, args_start, 1);
    if m.lookup_special {
        if let Some(i) = match_paren(src, args_start, 1) {
            lemma_lookup_args(lookup_source(src, args_start, i), m.js_mode, call_start);
        }
    }
}

/// Errors in re-read argument text are placed at the call.
proof fn lemma_lookup_args(sub: Seq<u8>, js_mode: bool, call_start: int)
    ensures
        lookup_args(sub, js_mode, call_start) matches Err(e) ==> e.pos == call_start as usize,
    decreases 0int, sub.len(), 11int,
{
    lemma_lookup_list(sub, Mode { lookup_special: false, js_mode }, 0, Seq::empty(), call_start);
}

proof fn lemma_lookup_list(
    sub: Seq<u8>,
    m: Mode,
    pos: int,
    args: Seq<SpecExpr>,
    call_start: int,
)
    requires
        0 <= pos <= sub.len(),
    ensures
        p_lookup_list(sub, m, pos, args, call_start) matches Err(e) ==> e.pos == call_start as usize,
    decreases lk(m), sub.len() - pos, 10int,
{
    lemma_expr(sub, m, pos, 0);
    if let Ok((e, p1)) = p_expr(sub, m, pos, 0) {
        lemma_lex_within(sub, p1);
        if let Ok(t) = spec_lex(sub, p1) {
            if t.tok is Comma {
                lemma_lookup_list(sub, m, t.end, args.push(e), call_start);
            }
        }
    }
}

proof fn lemma_if_cond(src: Seq<u8>, m: Mode, pos: int, depth: int, args: Seq<SpecExpr>)
    requires
        0 <= pos <= src.len(),
    ensures
        list_within(src, m, p_if_cond(src, m, pos, depth, args), pos),
    decreases src.len() - pos,
{
    lemma_lex_within(src, pos);
    lemma_expr(src, m, pos, depth);
    if let Ok((e, p1)) = p_expr(src, m, pos, depth) {
        lemma_lex_within(src, p1);
        if let Ok(t) = spec_lex(src, p1) {
            if t.tok is Comma {
                lemma_if_cond(src, m, t.end, depth, args.push(e));
            }
        }
    }
}

proof fn lemma_if_then(src: Seq<u8>, m: Mode, pos: int, depth: int, args: Seq<SpecExpr>)
    requires
        0 <= pos <= src.len(),
    ensures
        list_within(src, m, p_if_then(src, m, pos, depth, args), pos),
    decreases src.len() - pos,
{
    lemma_lex_within(src, pos);
    lemma_expr(src, m, pos, depth);
    if let Ok((e, p1)) = p_expr(src, m, pos, depth) {
        lemma_lex_within(src, p1);
        if let Ok(t) = spec_lex(src, p1) {
            if t.tok is Comma {
                lemma_if_then(src, m, t.end, depth, args.push(e));
            }
        }
    }
}

proof fn lemma_if_else(src: Seq<u8>, m: Mode, pos: int, depth: int, args: Seq<SpecExpr>)
    requires
        0 <= pos <= src.len(),
    ensures
        list_within(src, m, p_if_else(src, m, pos, depth, args), pos),
    decreases src.len() - pos,
{
    lemma_expr(src, m, pos, depth);
    if let Ok((e, p1)) = p_expr(src, m, pos, depth) {
        lemma_lex_within(src, p1);
        if let Ok(t) = spec_lex(src, p1) {
            if t.tok is Comma {
                lemma_if_else(src, m, t.end, depth, args.push(e));
            }
        }
    }
}

#[verifier::spinoff_prover]
proof fn lemma_natural_if(src: Seq<u8>, m: Mode, pos: int, depth: int)
    requires
        0 <= pos <= src.len(),
    ensures
        res_within(src, m, p_natural_if(src, m, pos, depth), pos),
    decreases src.len() - pos,
{
    lemma_lex_within(src, pos);
    if let Ok(tif) = spec_lex(src, pos) {
        if !(tif.tok is Eof) {
            let d = depth + 1;
            lemma_if_cond(src, m, tif.end, d, Seq::empty());
            if let Ok((args, p1)) = p_if_cond(src, m, tif.end, d, Seq::empty()) {
                lemma_lex_within(src, p1);
                if let Ok(tthen) = spec_lex(src, p1) {
                    lemma_if_then(src, m, tthen.end, d, args);
                    if let Ok((args2, p3)) = p_if_then(src, m, tthen.end, d, args) {
                        lemma_lex_within(src, p3);
                        if let Ok(telse) = spec_lex(src, p3) {
                            lemma_lex_within(src, telse.end);
                            if !(telse.tok is Eof) {
                                lemma_natural_if(src, m, telse.end, d);
                                if let Ok((nested, p5)) = p_natural_if(src, m, telse.end, d) {
                                    lemma_lex_within(src, p5);
                                }
                            }
                            lemma_if_else(src, m, telse.end, d, args2);
                            if let Ok((args3, p5)) = p_if_else(src, m, telse.end, d, args2) {
                                lemma_lex_within(src, p5);
                            }
                        }
                    }
                }
            }
        }
    }
}

proof fn lemma_prog_rest(src: Seq<u8>, m: Mode, pos: int, items: Seq<SpecExpr>)
    requires
        0 <= pos <= src.len(),
    ensures
        res_within(src, m, p_prog_rest(src, m, pos, items), pos),
    decreases src.len() - pos,
{
    lemma_lex_within(src, pos);
    if let Ok(t) = spec_lex(src, pos) {
        if t.tok is Comma {
            lemma_expr(src, m, t.end, 0);
            if let Ok((e, p1)) = p_expr(src, m, t.end, 0) {
                lemma_prog_rest(src, m, p1, items.push(e));
            }
        }
    }
}

proof fn lemma_program(src: Seq<u8>, m: Mode)
    requires
        src.len() <= usize::MAX,
    ensures
        p_program(src, m) matches Err(e) ==> err_ok(src, m, e),
{
    lemma_lex_within(src, 0);
    lemma_natural_if(src, m, 0, 0);
    if let Ok((e, p)) = p_natural_if(src, m, 0, 0) {
        lemma_lex_within(src, p);
    }
    lemma_expr(src, m, 0, 0);
    if let Ok((e, p1)) = p_expr(src, m, 0, 0) {
        lemma_prog_rest(src, m, p1, seq![e]);
        if let Ok((e2, p)) = p_prog_rest(src, m, p1, seq![e]) {
            lemma_lex_within(src, p);
        }
    }
}

/// Whatever the source, a compile error (in either mode) points at a byte of
/// the source or at its end. An error found in the argument text of a
/// LOOKUP/CLOSEST call points at the start of that call's name; raw-JS mode
/// reports none such.
pub proof fn lemma_compile_error_in_source(src: Seq<u8>)
    requires
        src.len() <= usize::MAX,
    ensures
        spec_compile(src) matches Err(e) ==> e.pos <= src.len() && (e.in_lookup ==> lookup_call_at(
            src,
            e.pos as int,
        )),
        spec_compile_js(src) matches Err(e) ==> e.pos <= src.len() && !e.in_lookup,
{
    lemma_program(src, Mode { lookup_special: true, js_mode: false });
    lemma_program(src, Mode { lookup_special: false, js_mode: true });
}

} // verus!
