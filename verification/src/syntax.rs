//! The resolved syntax the checker reads, as the resolver hands it over:
//! literals, and the const arguments written in an `of (..)` list. This is
//! the syntax, so it carries whatever the parser accepted in a position; a
//! later phase says what is wrong with it.

use vstd::prelude::*;

use crate::infer::Span;
use crate::items::Res;

verus! {

/// A number literal's type suffix.
#[derive(Debug, Clone, Copy, PartialEq, Eq, Structural)]
pub enum NumSuffix {
    I8,
    I16,
    I32,
    I64,
    U8,
    U16,
    U32,
    U64,
    F32,
    F64,
}

/// A binary operator as written.
#[derive(Debug, Clone, Copy, PartialEq, Eq, Structural)]
pub enum BinaryOp {
    Add,
    Sub,
    Mul,
    Div,
    Rem,
    Pow,
    MatMul,
    Eq,
    Ne,
    Lt,
    Le,
    Gt,
    Ge,
    And,
    Or,
}

/// A literal as written.
#[derive(Debug)]
pub enum Literal {
    /// An integer literal's magnitude; a minus sign is an operator.
    Int { value: u128, suffix: Option<NumSuffix> },
    /// A float literal, its value kept as its IEEE 754 bits.
    Float { bits: u64, suffix: Option<NumSuffix> },
    Str(String),
    Char(char),
    Bool(bool),
    Null,
}

/// What a [`Literal`] holds.
pub ghost enum LiteralView {
    Int { value: u128, suffix: Option<NumSuffix> },
    Float { bits: u64, suffix: Option<NumSuffix> },
    Str(Seq<char>),
    Char(char),
    Bool(bool),
    Null,
}

impl View for Literal {
    type V = LiteralView;

    open spec fn view(&self) -> LiteralView {
        match self {
            Literal::Int { value, suffix } => LiteralView::Int { value: *value, suffix: *suffix },
            Literal::Float { bits, suffix } => LiteralView::Float { bits: *bits, suffix: *suffix },
            Literal::Str(text) => LiteralView::Str(text@),
            Literal::Char(c) => LiteralView::Char(*c),
            Literal::Bool(b) => LiteralView::Bool(*b),
            Literal::Null => LiteralView::Null,
        }
    }
}

impl Literal {
    /// A copy of the literal.
    pub fn copy(&self) -> (out: Literal)
        ensures
            out@ == self@,
    {
        match self {
            Literal::Int { value, suffix } => Literal::Int { value: *value, suffix: *suffix },
            Literal::Float { bits, suffix } => Literal::Float { bits: *bits, suffix: *suffix },
            Literal::Str(text) => Literal::Str(text.clone()),
            Literal::Char(c) => Literal::Char(*c),
            Literal::Bool(b) => Literal::Bool(*b),
            Literal::Null => Literal::Null,
        }
    }
}

/// A const argument as written.
#[derive(Debug)]
pub struct ConstExpr {
    pub kind: ConstExprKind,
    pub span: Span,
}

/// The const-argument grammar: literals, parameters, `-e`, `e + e`,
/// `e - e`, and a product or quotient with a literal.
#[derive(Debug)]
pub enum ConstExprKind {
    Lit(Literal),
    Neg(Box<ConstExpr>),
    Param(Res),
    Add(Box<ConstExpr>, Box<ConstExpr>),
    Sub(Box<ConstExpr>, Box<ConstExpr>),
    /// `e * d` or `d * e`; `factor_span` is the literal's own.
    Mul { operand: Box<ConstExpr>, factor: Literal, factor_span: Span },
    /// `e / d`.
    Div { operand: Box<ConstExpr>, divisor: Literal, divisor_span: Span },
}

/// The signed value a literal or a negated literal denotes, when it is an
/// integer in `i128`: `-2^127` is one, although `2^127` is not.
pub open spec fn signed_value(e: ConstExpr) -> Option<int> {
    match e.kind {
        ConstExprKind::Lit(Literal::Int { value, .. }) => if value <= i128::MAX {
            Some(value as int)
        } else {
            None
        },
        ConstExprKind::Neg(inner) => match inner.kind {
            ConstExprKind::Lit(Literal::Int { value, .. }) => if value <= i128::MAX + 1 {
                Some(-(value as int))
            } else {
                None
            },
            _ => None,
        },
        _ => None,
    }
}

impl ConstExpr {
    /// The signed value of an integer literal, or of a negated one, when it
    /// fits in `i128`. Negating after the literal is read is what keeps
    /// `i128::MIN`: its magnitude is one past `i128::MAX`.
    pub fn as_i128(&self) -> (r: Option<i128>)
        ensures
            match signed_value(*self) {
                None => r is None,
                Some(v) => r == Some(v as i128),
            },
    {
        match &self.kind {
            ConstExprKind::Lit(Literal::Int { value, .. }) => {
                if *value <= 170141183460469231731687303715884105727u128 {
                    Some(*value as i128)
                } else {
                    None
                }
            },
            ConstExprKind::Neg(inner) => match &inner.kind {
                ConstExprKind::Lit(Literal::Int { value, .. }) => {
                    if *value <= 170141183460469231731687303715884105727u128 {
                        let magnitude = *value as i128;
                        Some(-magnitude)
                    } else if *value == 170141183460469231731687303715884105728u128 {
                        Some(i128::MIN)
                    } else {
                        None
                    }
                },
                _ => None,
            },
            _ => None,
        }
    }
}

/// An expression as written, as far as a module-level `const`'s
/// initialiser is read: a bare literal, or anything else.
#[derive(Debug)]
pub struct Expr {
    pub kind: ExprKind,
    pub span: Span,
}

/// The form of an expression.
#[derive(Debug)]
pub enum ExprKind {
    Literal(Literal),
    /// A call, an operator, a name, or any other form.
    Other,
}

} // verus!
