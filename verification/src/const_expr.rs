//! The const-expression grammar as the checker's own tree.
//!
//! The syntax ([`crate::syntax::ConstExpr`]) carries whatever the parser
//! accepted in a const-argument position: floats, strings, suffixes. This tree
//! is what is left after [`lower`] has run: every node denotes an integer,
//! every literal is already an `i128`, and every name is already a
//! [`DefId`]. [`lower`] is the only way in.
//!
//! A product holds its factor as an `i128` field rather than as a second
//! operand, so linearity is a property of the tree's shape: `2 * N` and
//! `N * 2` are one node.

use vstd::prelude::*;

use crate::assign::Definition;
use crate::diagnostics::{
    division_is_f1, division_is_f1_view, literal_too_large, literal_too_large_view,
    non_integer_literal, non_integer_literal_view, suffixed_literal, suffixed_literal_view,
    unresolved_const_param, unresolved_const_param_view, Diagnostic, DiagnosticView,
};
use crate::infer::Span;
use crate::items::{definition_of, find_definition, Res};
use crate::syntax;
use crate::syntax::{signed_value, Literal};
use crate::text::{push_char, push_signed_decimal, push_str, signed_decimal};
use crate::ty::DefId;

verus! {

/// One node of a const expression, with where it came from.
#[derive(Debug)]
pub struct ConstExpr {
    pub kind: ConstExprKind,
    pub span: Span,
}

/// The forms a const expression takes, and no others.
#[derive(Debug)]
pub enum ConstExprKind {
    /// An integer literal, already signed.
    Lit(i128),
    /// A const generic parameter.
    Param(DefId),
    /// `-e`.
    Neg(Box<ConstExpr>),
    /// `e₁ + e₂`.
    Add(Box<ConstExpr>, Box<ConstExpr>),
    /// `e₁ - e₂`, kept apart from `Add(a, Neg(b))` so that a diagnostic can
    /// point at the `-` that was written.
    Sub(Box<ConstExpr>, Box<ConstExpr>),
    /// `e * d` and `d * e`, which are one operation; `factor_span` is the
    /// literal's own.
    Scale { operand: Box<ConstExpr>, factor: i128, factor_span: Span },
}

/// How tightly a form binds, loosest first.
#[derive(Debug, Clone, Copy, PartialEq, Eq, Structural)]
pub enum Precedence {
    Lowest,
    Additive,
    Multiplicative,
    Unary,
    Atom,
}

/// The position of a precedence in that order.
pub open spec fn rank(p: Precedence) -> int {
    match p {
        Precedence::Lowest => 0,
        Precedence::Additive => 1,
        Precedence::Multiplicative => 2,
        Precedence::Unary => 3,
        Precedence::Atom => 4,
    }
}

fn rank_of(p: Precedence) -> (r: u8)
    ensures
        r == rank(p),
{
    match p {
        Precedence::Lowest => 0,
        Precedence::Additive => 1,
        Precedence::Multiplicative => 2,
        Precedence::Unary => 3,
        Precedence::Atom => 4,
    }
}

/// How tightly the expression's own form binds.
pub open spec fn precedence_of(e: ConstExpr) -> Precedence {
    match e.kind {
        ConstExprKind::Lit(_) | ConstExprKind::Param(_) => Precedence::Atom,
        ConstExprKind::Neg(_) => Precedence::Unary,
        ConstExprKind::Add(..) | ConstExprKind::Sub(..) => Precedence::Additive,
        ConstExprKind::Scale { .. } => Precedence::Multiplicative,
    }
}

/// Every parameter the expression names has a definition in `defs`.
pub open spec fn params_defined(e: ConstExpr, defs: Seq<Definition>) -> bool
    decreases e,
{
    match e.kind {
        ConstExprKind::Lit(_) => true,
        ConstExprKind::Param(def) => definition_of(defs, def) is Some,
        ConstExprKind::Neg(operand) => params_defined(*operand, defs),
        ConstExprKind::Add(left, right) | ConstExprKind::Sub(left, right) => params_defined(
            *left,
            defs,
        ) && params_defined(*right, defs),
        ConstExprKind::Scale { operand, .. } => params_defined(*operand, defs),
    }
}

/// The expression as written in a position that binds `outer` tightly:
/// parenthesised only when its own form binds more loosely. The right
/// operand of `+` and `-` needs the next level up, or `a - (b - c)` would
/// print as `a - b - c`; a product prints its operand first.
pub open spec fn written(e: ConstExpr, defs: Seq<Definition>, outer: Precedence) -> Seq<char>
    decreases e,
{
    let body = match e.kind {
        ConstExprKind::Lit(value) => signed_decimal(value as int),
        ConstExprKind::Param(def) => definition_of(defs, def).unwrap().name@,
        ConstExprKind::Neg(operand) => seq!['-'] + written(*operand, defs, Precedence::Unary),
        ConstExprKind::Add(left, right) => written(*left, defs, Precedence::Additive) + seq![' ', '+', ' ']
            + written(*right, defs, Precedence::Multiplicative),
        ConstExprKind::Sub(left, right) => written(*left, defs, Precedence::Additive) + seq![' ', '-', ' ']
            + written(*right, defs, Precedence::Multiplicative),
        ConstExprKind::Scale { operand, factor, .. } => written(
            *operand,
            defs,
            Precedence::Multiplicative,
        ) + seq![' ', '*', ' '] + signed_decimal(factor as int),
    };
    if rank(precedence_of(e)) < rank(outer) {
        seq!['('] + body + seq![')']
    } else {
        body
    }
}

impl ConstExpr {
    pub fn lit(value: i128, span: Span) -> (e: ConstExpr)
        ensures
            e == (ConstExpr { kind: ConstExprKind::Lit(value), span }),
    {
        ConstExpr { kind: ConstExprKind::Lit(value), span }
    }

    pub fn param(def: DefId, span: Span) -> (e: ConstExpr)
        ensures
            e == (ConstExpr { kind: ConstExprKind::Param(def), span }),
    {
        ConstExpr { kind: ConstExprKind::Param(def), span }
    }

    pub fn neg(operand: ConstExpr, span: Span) -> (e: ConstExpr)
        ensures
            e == (ConstExpr { kind: ConstExprKind::Neg(Box::new(operand)), span }),
    {
        ConstExpr { kind: ConstExprKind::Neg(Box::new(operand)), span }
    }

    pub fn add(left: ConstExpr, right: ConstExpr, span: Span) -> (e: ConstExpr)
        ensures
            e == (ConstExpr { kind: ConstExprKind::Add(Box::new(left), Box::new(right)), span }),
    {
        ConstExpr { kind: ConstExprKind::Add(Box::new(left), Box::new(right)), span }
    }

    pub fn sub(left: ConstExpr, right: ConstExpr, span: Span) -> (e: ConstExpr)
        ensures
            e == (ConstExpr { kind: ConstExprKind::Sub(Box::new(left), Box::new(right)), span }),
    {
        ConstExpr { kind: ConstExprKind::Sub(Box::new(left), Box::new(right)), span }
    }

    /// `operand * factor`. `factor_span` points at the literal.
    pub fn scale(operand: ConstExpr, factor: i128, factor_span: Span, span: Span) -> (e: ConstExpr)
        ensures
            e == (ConstExpr {
                kind: ConstExprKind::Scale { operand: Box::new(operand), factor, factor_span },
                span,
            }),
    {
        ConstExpr {
            kind: ConstExprKind::Scale { operand: Box::new(operand), factor, factor_span },
            span,
        }
    }

    /// The expression as the programmer wrote it, near enough to print:
    /// parentheses only where precedence needs them, and a product always
    /// operand first.
    pub fn render(&self, defs: &[Definition]) -> (out: String)
        requires
            params_defined(*self, defs@),
        ensures
            out@ == written(*self, defs@, Precedence::Lowest),
    {
        let mut out = String::new();
        self.render_at(defs, Precedence::Lowest, &mut out);
        assert(out@ =~= written(*self, defs@, Precedence::Lowest));
        out
    }

    fn render_at(&self, defs: &[Definition], outer: Precedence, out: &mut String)
        requires
            params_defined(*self, defs@),
        ensures
            final(out)@ == old(out)@ + written(*self, defs@, outer),
        decreases self,
    {
        let ghost start = out@;
        let mine = self.precedence();
        let wrap = rank_of(mine) < rank_of(outer);
        if wrap {
            push_char(out, '(');
        }
        let ghost opened = out@;
        match &self.kind {
            ConstExprKind::Lit(value) => {
                push_signed_decimal(out, *value);
            },
            ConstExprKind::Param(def) => {
                let definition = find_definition(defs, *def).unwrap();
                push_str(out, definition.name.as_str());
            },
            ConstExprKind::Neg(operand) => {
                push_char(out, '-');
                operand.render_at(defs, Precedence::Unary, out);
                assert(out@ =~= opened + (seq!['-'] + written(**operand, defs@, Precedence::Unary)));
            },
            ConstExprKind::Add(left, right) => {
                left.render_at(defs, Precedence::Additive, out);
                push_str(out, " + ");
                proof {
                    reveal_strlit(" + ");
                }
                right.render_at(defs, Precedence::Multiplicative, out);
                assert(out@ =~= opened + (written(**left, defs@, Precedence::Additive) + seq![' ', '+', ' ']
                    + written(**right, defs@, Precedence::Multiplicative)));
            },
            ConstExprKind::Sub(left, right) => {
                left.render_at(defs, Precedence::Additive, out);
                push_str(out, " - ");
                proof {
                    reveal_strlit(" - ");
                }
                right.render_at(defs, Precedence::Multiplicative, out);
                assert(out@ =~= opened + (written(**left, defs@, Precedence::Additive) + seq![' ', '-', ' ']
                    + written(**right, defs@, Precedence::Multiplicative)));
            },
            ConstExprKind::Scale { operand, factor, .. } => {
                operand.render_at(defs, Precedence::Multiplicative, out);
                push_str(out, " * ");
                proof {
                    reveal_strlit(" * ");
                }
                push_signed_decimal(out, *factor);
                assert(out@ =~= opened + (written(**operand, defs@, Precedence::Multiplicative) + seq![
                    ' ',
                    '*',
                    ' ',
                ] + signed_decimal(*factor as int)));
            },
        }
        if wrap {
            push_char(out, ')');
        }
        assert(out@ =~= start + written(*self, defs@, outer));
    }

    fn precedence(&self) -> (p: Precedence)
        ensures
            p == precedence_of(*self),
    {
        match &self.kind {
            ConstExprKind::Lit(_) | ConstExprKind::Param(_) => Precedence::Atom,
            ConstExprKind::Neg(_) => Precedence::Unary,
            ConstExprKind::Add(..) | ConstExprKind::Sub(..) => Precedence::Additive,
            ConstExprKind::Scale { .. } => Precedence::Multiplicative,
        }
    }
}

// ---------------------------------------------------------------------------
// Lowering the syntax
// ---------------------------------------------------------------------------

/// What refuses a literal in a const-argument position, if anything: only an
/// unsuffixed integer is admitted.
pub open spec fn literal_refusal(literal: Literal, span: Span) -> Option<DiagnosticView> {
    match literal {
        Literal::Int { suffix: None, .. } => None,
        Literal::Int { suffix: Some(_), .. } => Some(suffixed_literal_view(span)),
        Literal::Float { .. } => Some(non_integer_literal_view(span, "a float"@)),
        Literal::Str(_) => Some(non_integer_literal_view(span, "a string"@)),
        Literal::Char(_) => Some(non_integer_literal_view(span, "a character"@)),
        Literal::Bool(_) => Some(non_integer_literal_view(span, "a boolean"@)),
        Literal::Null => Some(non_integer_literal_view(span, "`null`"@)),
    }
}

/// What [`lower`] makes of a const argument: the tree, or the first refusal
/// met, left operand before right and a product's factor before its operand.
pub open spec fn lowered(e: syntax::ConstExpr) -> Result<ConstExpr, DiagnosticView>
    decreases e,
{
    match e.kind {
        syntax::ConstExprKind::Lit(literal) => match literal_refusal(literal, e.span) {
            Some(d) => Err(d),
            None => match signed_value(e) {
                Some(v) => Ok(ConstExpr { kind: ConstExprKind::Lit(v as i128), span: e.span }),
                None => Err(literal_too_large_view(e.span)),
            },
        },
        syntax::ConstExprKind::Neg(operand) => match operand.kind {
            syntax::ConstExprKind::Lit(literal) => match literal_refusal(literal, operand.span) {
                Some(d) => Err(d),
                None => match signed_value(e) {
                    Some(v) => Ok(ConstExpr { kind: ConstExprKind::Lit(v as i128), span: e.span }),
                    None => Err(literal_too_large_view(e.span)),
                },
            },
            _ => match lowered(*operand) {
                Ok(c) => Ok(ConstExpr { kind: ConstExprKind::Neg(Box::new(c)), span: e.span }),
                Err(d) => Err(d),
            },
        },
        syntax::ConstExprKind::Param(res) => match res {
            Res::Def(def) => Ok(ConstExpr { kind: ConstExprKind::Param(def), span: e.span }),
            _ => Err(unresolved_const_param_view(e.span)),
        },
        syntax::ConstExprKind::Add(left, right) => match lowered(*left) {
            Err(d) => Err(d),
            Ok(a) => match lowered(*right) {
                Err(d) => Err(d),
                Ok(b) => Ok(ConstExpr { kind: ConstExprKind::Add(Box::new(a), Box::new(b)), span: e.span }),
            },
        },
        syntax::ConstExprKind::Sub(left, right) => match lowered(*left) {
            Err(d) => Err(d),
            Ok(a) => match lowered(*right) {
                Err(d) => Err(d),
                Ok(b) => Ok(ConstExpr { kind: ConstExprKind::Sub(Box::new(a), Box::new(b)), span: e.span }),
            },
        },
        syntax::ConstExprKind::Mul { operand, factor, factor_span } => match literal_refusal(
            factor,
            factor_span,
        ) {
            Some(d) => Err(d),
            None => match factor {
                Literal::Int { value, .. } => if value <= i128::MAX {
                    match lowered(*operand) {
                        Err(d) => Err(d),
                        Ok(c) => Ok(
                            ConstExpr {
                                kind: ConstExprKind::Scale {
                                    operand: Box::new(c),
                                    factor: value as i128,
                                    factor_span,
                                },
                                span: e.span,
                            },
                        ),
                    }
                } else {
                    Err(literal_too_large_view(factor_span))
                },
                _ => Err(non_integer_literal_view(factor_span, "not an integer"@)),
            },
        },
        syntax::ConstExprKind::Div { divisor_span, .. } => Err(division_is_f1_view(divisor_span)),
    }
}

/// Refuses every literal that is not an unsuffixed integer.
fn check_integer_literal(literal: &Literal, span: Span) -> (r: Result<(), Diagnostic>)
    ensures
        match r {
            Ok(()) => literal_refusal(*literal, span) is None,
            Err(d) => literal_refusal(*literal, span) == Some(d@),
        },
{
    match literal {
        Literal::Int { suffix: None, .. } => Ok(()),
        Literal::Int { suffix: Some(_), .. } => Err(suffixed_literal(span)),
        Literal::Float { .. } => Err(non_integer_literal(span, "a float")),
        Literal::Str(_) => Err(non_integer_literal(span, "a string")),
        Literal::Char(_) => Err(non_integer_literal(span, "a character")),
        Literal::Bool(_) => Err(non_integer_literal(span, "a boolean")),
        Literal::Null => Err(non_integer_literal(span, "`null`")),
    }
}

/// The signed value of an integer literal, once it is known to be one.
fn literal_value(literal: &Literal, span: Span) -> (r: Result<i128, Diagnostic>)
    ensures
        match *literal {
            Literal::Int { value, .. } => if value <= i128::MAX {
                r == Ok::<i128, Diagnostic>(value as i128)
            } else {
                r matches Err(d) && d@ == literal_too_large_view(span)
            },
            _ => r matches Err(d) && d@ == non_integer_literal_view(span, "not an integer"@),
        },
{
    match literal {
        Literal::Int { value, .. } => {
            if *value <= 170141183460469231731687303715884105727u128 {
                Ok(*value as i128)
            } else {
                Err(literal_too_large(span))
            }
        },
        _ => Err(non_integer_literal(span, "not an integer")),
    }
}

/// Turns a resolved const argument into a const expression, or says why it
/// is not one: a literal that is not an integer, an integer literal with a
/// suffix, an integer whose magnitude leaves `i128`, a name that did not
/// resolve, or a division. A negated literal folds into one literal here,
/// which is the only reading that keeps `i128::MIN`.
pub fn lower(expr: &syntax::ConstExpr) -> (r: Result<ConstExpr, Diagnostic>)
    ensures
        match r {
            Ok(c) => lowered(*expr) == Ok::<ConstExpr, DiagnosticView>(c),
            Err(d) => lowered(*expr) == Err::<ConstExpr, DiagnosticView>(d@),
        },
    decreases expr,
{
    match &expr.kind {
        syntax::ConstExprKind::Lit(literal) => {
            if let Err(d) = check_integer_literal(literal, expr.span) {
                return Err(d);
            }
            match expr.as_i128() {
                Some(value) => Ok(ConstExpr::lit(value, expr.span)),
                None => Err(literal_too_large(expr.span)),
            }
        },
        syntax::ConstExprKind::Neg(operand) => {
            if let syntax::ConstExprKind::Lit(literal) = &operand.kind {
                if let Err(d) = check_integer_literal(literal, operand.span) {
                    return Err(d);
                }
                return match expr.as_i128() {
                    Some(value) => Ok(ConstExpr::lit(value, expr.span)),
                    None => Err(literal_too_large(expr.span)),
                };
            }
            match lower(operand) {
                Ok(c) => Ok(ConstExpr::neg(c, expr.span)),
                Err(d) => Err(d),
            }
        },
        syntax::ConstExprKind::Param(res) => match res.def_id() {
            Some(def) => Ok(ConstExpr::param(def, expr.span)),
            None => Err(unresolved_const_param(expr.span)),
        },
        syntax::ConstExprKind::Add(lhs, rhs) => {
            let left = match lower(lhs) {
                Ok(c) => c,
                Err(d) => return Err(d),
            };
            let right = match lower(rhs) {
                Ok(c) => c,
                Err(d) => return Err(d),
            };
            Ok(ConstExpr::add(left, right, expr.span))
        },
        syntax::ConstExprKind::Sub(lhs, rhs) => {
            let left = match lower(lhs) {
                Ok(c) => c,
                Err(d) => return Err(d),
            };
            let right = match lower(rhs) {
                Ok(c) => c,
                Err(d) => return Err(d),
            };
            Ok(ConstExpr::sub(left, right, expr.span))
        },
        syntax::ConstExprKind::Mul { operand, factor, factor_span } => {
            if let Err(d) = check_integer_literal(factor, *factor_span) {
                return Err(d);
            }
            let value = match literal_value(factor, *factor_span) {
                Ok(v) => v,
                Err(d) => return Err(d),
            };
            match lower(operand) {
                Ok(c) => Ok(ConstExpr::scale(c, value, *factor_span, expr.span)),
                Err(d) => Err(d),
            }
        },
        syntax::ConstExprKind::Div { divisor_span, .. } => Err(division_is_f1(*divisor_span)),
    }
}

// ---------------------------------------------------------------------------
// Laws
// ---------------------------------------------------------------------------

/// Whether the tree has a negation applied directly to a literal anywhere.
pub open spec fn has_negated_literal(e: ConstExpr) -> bool
    decreases e,
{
    match e.kind {
        ConstExprKind::Lit(_) | ConstExprKind::Param(_) => false,
        ConstExprKind::Neg(operand) => operand.kind is Lit || has_negated_literal(*operand),
        ConstExprKind::Add(left, right) | ConstExprKind::Sub(left, right) => has_negated_literal(*left)
            || has_negated_literal(*right),
        ConstExprKind::Scale { operand, .. } => has_negated_literal(*operand),
    }
}

/// Whether the argument negates a negated literal somewhere, as `-(-3)`.
pub open spec fn negates_negated_literal(e: syntax::ConstExpr) -> bool
    decreases e,
{
    match e.kind {
        syntax::ConstExprKind::Neg(operand) => (operand.kind matches syntax::ConstExprKind::Neg(inner)
            && inner.kind is Lit) || negates_negated_literal(*operand),
        syntax::ConstExprKind::Add(left, right) | syntax::ConstExprKind::Sub(left, right) =>
            negates_negated_literal(*left) || negates_negated_literal(*right),
        syntax::ConstExprKind::Mul { operand, .. } | syntax::ConstExprKind::Div { operand, .. } =>
            negates_negated_literal(*operand),
        _ => false,
    }
}

/// Lowering keeps where the argument was written, and folds a negated
/// literal into one literal, so a lowered tree negates no literal unless
/// the argument negated a negated literal: `-(-3)` lowers to the negation
/// of the literal `-3`.
pub proof fn law_lowering_folds_negated_literals(e: syntax::ConstExpr)
    requires
        !negates_negated_literal(e),
    ensures
        lowered(e) matches Ok(c) ==> c.span == e.span && !has_negated_literal(c),
    decreases e,
{
    match e.kind {
        syntax::ConstExprKind::Neg(operand) => {
            law_lowering_folds_negated_literals(*operand);
            if let Ok(c) = lowered(*operand) {
                if !(operand.kind is Lit) {
                    assert(!(c.kind is Lit)) by {
                        lemma_lowered_literal_comes_from_literal(*operand);
                    }
                }
            }
        },
        syntax::ConstExprKind::Add(left, right) | syntax::ConstExprKind::Sub(left, right) => {
            law_lowering_folds_negated_literals(*left);
            law_lowering_folds_negated_literals(*right);
        },
        syntax::ConstExprKind::Mul { operand, .. } => {
            law_lowering_folds_negated_literals(*operand);
        },
        _ => {},
    }
}

/// A lowered literal comes from a literal or a negated literal.
proof fn lemma_lowered_literal_comes_from_literal(e: syntax::ConstExpr)
    ensures
        lowered(e) matches Ok(c) && c.kind is Lit ==> e.kind is Lit || (e.kind matches syntax::ConstExprKind::Neg(
            operand,
        ) && operand.kind is Lit),
{
}

/// Rendering in a context adds at most one pair of parentheses around the
/// context-free rendering, and adds it exactly when the expression's own
/// form binds more loosely than the context.
pub proof fn law_parentheses_only_where_needed(e: ConstExpr, defs: Seq<Definition>, outer: Precedence)
    ensures
        rank(precedence_of(e)) < rank(outer) ==> written(e, defs, outer) == seq!['('] + written(
            e,
            defs,
            Precedence::Lowest,
        ) + seq![')'],
        rank(precedence_of(e)) >= rank(outer) ==> written(e, defs, outer) == written(
            e,
            defs,
            Precedence::Lowest,
        ),
{
}

} // verus!
