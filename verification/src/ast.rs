//! AST of the Torque equation dialect.
//!
//! The tree holds only owned data. Names and string contents are UTF-8
//! bytes; numeric literals keep their source digits (`NumLit`), so the tree
//! records exactly what was written and a host converts literals to numbers.
//! Spans are byte offsets into the source handed to the parser.
use vstd::prelude::*;

verus! {

#[derive(Debug, Clone, Copy, PartialEq, Eq, Structural)]
pub enum UnOp {
    /// `-x`
    Neg,
    /// `+x`
    Plus,
    /// `!x`
    Not,
    /// `~x`
    BitNot,
}

#[derive(Debug, Clone, Copy, PartialEq, Eq, Structural)]
pub enum BinOp {
    Add,
    Sub,
    Mul,
    Div,
    Mod,
    Pow,
    BitAnd,
    BitOr,
    BitXor,
    Shl,
    Shr,
    UShr,
    Lt,
    Gt,
    Le,
    Ge,
    /// `==`
    EqLoose,
    /// `!=`
    NeLoose,
    /// `===`
    EqStrict,
    /// `!==`
    NeStrict,
    /// `&&` (returns an operand, not a bool; lazy)
    And,
    /// `||` (returns an operand, not a bool; lazy)
    Or,
}

/// Byte-offset span into the source expression.
#[derive(Debug, Clone, Copy, PartialEq, Eq, Structural)]
pub struct Span {
    pub start: usize,
    pub end: usize,
}

/// A numeric literal as written: a decimal literal keeps its full text
/// (digits, `.`, exponent); a `0x`/`0o`/`0b` literal keeps its radix and its
/// digits (without the prefix).
#[derive(Debug)]
pub enum NumLit {
    Decimal(Vec<u8>),
    Radix(u32, Vec<u8>),
}

#[derive(Debug)]
pub enum Expr {
    /// Numeric literal (decimal, hex `0x`, binary `0b`, octal `0o`).
    Num(NumLit),
    /// String literal (single- or double-quoted), unescaped, as UTF-8 bytes.
    /// `has_val_ref` is true when the content contains a `val{` marker.
    Str { s: Vec<u8>, has_val_ref: bool },
    /// `true` / `false`.
    Bool(bool),
    /// `undefined` literal / empty program.
    Undefined,
    /// Identifier: byte variable, user variable, or `NaN`/`Infinity`.
    Ident { name: Vec<u8>, span: Span },
    /// `val{PID NAME}` cross-PID reference.
    ValRef { name: Vec<u8>, span: Span },
    /// `[a, b, …]` bracket group.
    Bracket(Vec<Expr>),
    Unary(UnOp, Box<Expr>),
    Binary(BinOp, Box<Expr>, Box<Expr>),
    /// `cond ? a : b` with lazy branches (raw-JS submode only).
    Ternary(Box<Expr>, Box<Expr>, Box<Expr>),
    /// Function call; `name` is upper case for the case-insensitive names.
    Call { name: Vec<u8>, args: Vec<Expr>, span: Span },
    /// Comma/colon sequence; evaluates every element, yields the last.
    Sequence(Vec<Expr>),
}

/// Mathematical model of a numeric literal.
pub enum SpecNum {
    Decimal(Seq<u8>),
    Radix(u32, Seq<u8>),
}

/// Mathematical model of an expression tree.
pub enum SpecExpr {
    Num(SpecNum),
    Str(Seq<u8>, bool),
    Bool(bool),
    Undefined,
    Ident(Seq<u8>, int, int),
    ValRef(Seq<u8>, int, int),
    Bracket(Seq<SpecExpr>),
    Unary(UnOp, Box<SpecExpr>),
    Binary(BinOp, Box<SpecExpr>, Box<SpecExpr>),
    Ternary(Box<SpecExpr>, Box<SpecExpr>, Box<SpecExpr>),
    Call(Seq<u8>, Seq<SpecExpr>, int, int),
    Sequence(Seq<SpecExpr>),
}

impl View for NumLit {
    type V = SpecNum;

    open spec fn view(&self) -> SpecNum {
        match self {
            NumLit::Decimal(t) => SpecNum::Decimal(t@),
            NumLit::Radix(r, d) => SpecNum::Radix(*r, d@),
        }
    }
}

/// Models of a list of expressions.
pub open spec fn view_exprs(s: Seq<Expr>) -> Seq<SpecExpr>
    decreases s,
{
    if s.len() == 0 {
        Seq::empty()
    } else {
        view_exprs(s.drop_last()).push(s.last().view())
    }
}

impl View for Expr {
    type V = SpecExpr;

    open spec fn view(&self) -> SpecExpr
        decreases self,
    {
        match self {
            Expr::Num(n) => SpecExpr::Num(n@),
            Expr::Str { s, has_val_ref } => SpecExpr::Str(s@, *has_val_ref),
            Expr::Bool(b) => SpecExpr::Bool(*b),
            Expr::Undefined => SpecExpr::Undefined,
            Expr::Ident { name, span } => SpecExpr::Ident(name@, span.start as int, span.end as int),
            Expr::ValRef { name, span } => SpecExpr::ValRef(name@, span.start as int, span.end as int),
            Expr::Bracket(items) => SpecExpr::Bracket(view_exprs(items@)),
            Expr::Unary(op, e) => SpecExpr::Unary(*op, Box::new((**e).view())),
            Expr::Binary(op, l, r) => SpecExpr::Binary(*op, Box::new((**l).view()), Box::new((**r).view())),
            Expr::Ternary(c, a, b) => SpecExpr::Ternary(
                Box::new((**c).view()),
                Box::new((**a).view()),
                Box::new((**b).view()),
            ),
            Expr::Call { name, args, span } => SpecExpr::Call(
                name@,
                view_exprs(args@),
                span.start as int,
                span.end as int,
            ),
            Expr::Sequence(items) => SpecExpr::Sequence(view_exprs(items@)),
        }
    }
}

/// A compiled expression: the tree and the source it was compiled from.
#[derive(Debug)]
pub struct Ast {
    pub root: Expr,
    pub source: String,
}

impl Ast {
    pub fn root(&self) -> (r: &Expr)
        ensures
            r == &self.root,
    {
        &self.root
    }

    pub fn source(&self) -> (s: &str)
        ensures
            s@ == self.source@,
    {
        self.source.as_str()
    }
}

} // verus!
