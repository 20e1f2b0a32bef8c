//! Evaluating a module-level `const`'s initialiser.
//!
//! A constant's value has to be known before the first body in the crate is
//! checked, because any body may name it, and the declarations a body is
//! checked against are still being built when a `const` is reached. So only
//! a bare literal is admitted: a literal needs no declaration to type. An
//! unannotated constant takes the type an unsuffixed literal gets in a body,
//! and the value is substituted at every use only when the literal's kind
//! agrees with the constant's type: an integer literal for an integer type,
//! a float for a float type, and so on.

use vstd::prelude::*;

use crate::check::{suffix_name, suffix_text};
use crate::codes::CONST_INITIALISER_NOT_A_LITERAL;
use crate::diagnostics::{error_at, error_view, Diagnostic, DiagnosticView};
use crate::infer::Span;
use crate::items::{float_names, integer_names, is_any, is_primitive, lookup, Prelude};
use crate::syntax::{Expr, ExprKind, Literal, LiteralView};
use crate::ty::{extends, KindView, Ty, Types};

verus! {

/// What a `const`'s declaration-time lowering settled: its type, and the
/// literal to substitute at every use when there is one.
#[derive(Debug)]
pub struct Evaluated {
    /// The annotation's type when there is one, else the type the
    /// initialiser's literal would be given.
    pub ty: Ty,
    /// The literal, when the initialiser is one and it denotes a value of
    /// `ty`.
    pub value: Option<Literal>,
}

/// The prelude name an unannotated literal's type is looked up under: a
/// suffix names its own type, an unsuffixed number takes the default, and
/// `null` has none, since its type is `T?` for a `T` nothing here supplies.
pub open spec fn natural_name(literal: LiteralView) -> Option<Seq<char>> {
    match literal {
        LiteralView::Bool(_) => Some("Bool"@),
        LiteralView::Str(_) => Some("String"@),
        LiteralView::Char(_) => Some("Char"@),
        LiteralView::Int { suffix: Some(s), .. } => Some(suffix_text(s)),
        LiteralView::Float { suffix: Some(s), .. } => Some(suffix_text(s)),
        LiteralView::Int { suffix: None, .. } => Some("I64"@),
        LiteralView::Float { suffix: None, .. } => Some("F64"@),
        LiteralView::Null => None,
    }
}

/// Whether `literal` is a value of `ty`, by kind: every integer literal is
/// a value of every integer type, every float literal of every float type,
/// and `null` of none.
pub open spec fn literal_matches_spec(
    entries: Seq<(Seq<char>, crate::ty::DefId)>,
    kinds: Seq<KindView>,
    ty: Ty,
    literal: LiteralView,
) -> bool {
    match literal {
        LiteralView::Bool(_) => is_primitive(entries, kinds, ty, "Bool"@),
        LiteralView::Str(_) => is_primitive(entries, kinds, ty, "String"@),
        LiteralView::Char(_) => is_primitive(entries, kinds, ty, "Char"@),
        LiteralView::Int { .. } => is_any(entries, kinds, ty, integer_names()),
        LiteralView::Float { .. } => is_any(entries, kinds, ty, float_names()),
        LiteralView::Null => false,
    }
}

/// The report for an initialiser that is not a literal.
pub open spec fn not_a_literal_view(span: Span) -> DiagnosticView {
    error_view(
        CONST_INITIALISER_NOT_A_LITERAL,
        "this `const` initialiser is not a literal"@,
        span,
        "not a literal this compiler can evaluate yet"@,
    )
}

fn owned(s: &str) -> (out: String)
    ensures
        out@ == s@,
{
    s.to_owned()
}

/// A `const` initialiser that is not a literal: a call, an operator, or
/// another `const`, refused alike.
fn not_a_literal(span: Span) -> (d: Diagnostic)
    ensures
        d@ == not_a_literal_view(span),
{
    error_at(
        CONST_INITIALISER_NOT_A_LITERAL,
        owned("this `const` initialiser is not a literal"),
        span,
        owned("not a literal this compiler can evaluate yet"),
    )
}

/// The type an unannotated literal is given.
fn natural_ty(literal: &Literal, prelude: &Prelude, types: &mut Types) -> (r: Option<Ty>)
    requires
        old(types).wf(),
    ensures
        final(types).wf(),
        extends(old(types)@, final(types)@),
        match natural_name(literal@) {
            None => r is None && final(types)@ == old(types)@,
            Some(name) => match lookup(prelude@, name) {
                None => r is None && final(types)@ == old(types)@,
                Some(def) => r matches Some(t) && final(types).valid(t) && final(types)@[t.0 as int]
                    == (KindView::Named { def, args: seq![] }),
            },
        },
{
    match literal {
        Literal::Bool(_) => prelude.ty(types, "Bool"),
        Literal::Str(_) => prelude.ty(types, "String"),
        Literal::Char(_) => prelude.ty(types, "Char"),
        Literal::Int { suffix: Some(suffix), .. } | Literal::Float { suffix: Some(suffix), .. } => {
            prelude.ty(types, suffix_name(*suffix))
        },
        Literal::Int { suffix: None, .. } => prelude.default_int(types),
        Literal::Float { suffix: None, .. } => prelude.default_float(types),
        Literal::Null => {
            assert(old(types)@.take(old(types)@.len() as int) =~= old(types)@);
            None
        },
    }
}

/// Whether `literal` is a value of `ty`.
fn literal_matches(literal: &Literal, ty: Ty, prelude: &Prelude, types: &Types) -> (r: bool)
    requires
        types.valid(ty),
    ensures
        r == literal_matches_spec(prelude@, types@, ty, literal@),
{
    match literal {
        Literal::Bool(_) => prelude.is(types, ty, "Bool"),
        Literal::Str(_) => prelude.is(types, ty, "String"),
        Literal::Char(_) => prelude.is(types, ty, "Char"),
        Literal::Int { .. } => prelude.is_integer(types, ty),
        Literal::Float { .. } => prelude.is_float(types, ty),
        Literal::Null => false,
    }
}

/// Lowers one `const`'s initialiser: the literal it is, the type it takes
/// when the declaration writes none, and whether the literal may be
/// substituted for the constant. An initialiser that is not a literal is
/// reported, and the constant's type is then the annotation's, or the
/// error type.
pub fn lower(
    value: &Expr,
    annotation: Option<Ty>,
    prelude: &Prelude,
    types: &mut Types,
    diagnostics: &mut Vec<Diagnostic>,
) -> (e: Evaluated)
    requires
        old(types).wf(),
        annotation matches Some(a) ==> old(types).valid(a),
    ensures
        final(types).wf(),
        extends(old(types)@, final(types)@),
        final(types).valid(e.ty),
        match annotation {
            Some(a) => e.ty == a,
            None => match value.kind {
                ExprKind::Literal(literal) => match natural_name(literal@) {
                    Some(name) => match lookup(prelude@, name) {
                        Some(def) => final(types)@[e.ty.0 as int] == (KindView::Named { def, args: seq![] }),
                        None => e.ty == Ty(0),
                    },
                    None => e.ty == Ty(0),
                },
                ExprKind::Other => e.ty == Ty(0),
            },
        },
        match value.kind {
            ExprKind::Literal(literal) => match e.value {
                Some(v) => v@ == literal@ && literal_matches_spec(prelude@, final(types)@, e.ty, literal@),
                None => !literal_matches_spec(prelude@, final(types)@, e.ty, literal@),
            },
            ExprKind::Other => e.value is None,
        },
        match value.kind {
            ExprKind::Literal(_) => final(diagnostics)@ == old(diagnostics)@,
            ExprKind::Other => final(diagnostics)@.len() == old(diagnostics)@.len() + 1
                && final(diagnostics)@.take(old(diagnostics)@.len() as int) == old(diagnostics)@
                && final(diagnostics)@.last()@ == not_a_literal_view(value.span),
        },
{
    match &value.kind {
        ExprKind::Literal(literal) => {
            let natural = natural_ty(literal, prelude, types);
            let ty = match annotation {
                Some(a) => a,
                None => match natural {
                    Some(t) => t,
                    None => Ty::error(),
                },
            };
            let value = if literal_matches(literal, ty, prelude, types) {
                Some(literal.copy())
            } else {
                None
            };
            Evaluated { ty, value }
        },
        ExprKind::Other => {
            let ty = match annotation {
                Some(a) => a,
                None => Ty::error(),
            };
            let ghost before = diagnostics@;
            diagnostics.push(not_a_literal(value.span));
            assert(diagnostics@.take(before.len() as int) =~= before);
            assert(old(types)@.take(old(types)@.len() as int) =~= old(types)@);
            Evaluated { ty, value: None }
        },
    }
}

} // verus!
