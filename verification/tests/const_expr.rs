use science::assign::{DefKind, Definition};
use science::codes::NOT_A_CONST_EXPRESSION;
use science::const_expr::{lower, ConstExpr, ConstExprKind};
use science::diagnostics::Diagnostic;
use science::infer::Span;
use science::items::Res;
use science::syntax;
use science::syntax::{Literal, NumSuffix};
use science::ty::DefId;

fn at(start: usize) -> Span {
    Span { start, end: start + 1 }
}

fn defs() -> Vec<Definition> {
    ["a", "b", "c", "ORDER"]
        .iter()
        .enumerate()
        .map(|(i, name)| Definition {
            id: DefId(i as u32),
            kind: DefKind::Param,
            name: name.to_string(),
            builtin: false,
            span: at(i),
        })
        .collect()
}

fn p(i: u32) -> ConstExpr {
    ConstExpr::param(DefId(i), at(0))
}

#[test]
fn a_product_prints_operand_first() {
    let e = ConstExpr::scale(p(3), 3, at(1), at(0));
    assert_eq!(e.render(&defs()), "ORDER * 3");
}

#[test]
fn the_right_operand_of_a_difference_keeps_its_parentheses() {
    let e = ConstExpr::sub(p(0), ConstExpr::sub(p(1), p(2), at(0)), at(0));
    assert_eq!(e.render(&defs()), "a - (b - c)");
    let left = ConstExpr::sub(ConstExpr::sub(p(0), p(1), at(0)), p(2), at(0));
    assert_eq!(left.render(&defs()), "a - b - c");
}

#[test]
fn parentheses_appear_only_where_precedence_needs_them() {
    let sum = ConstExpr::add(p(0), p(1), at(0));
    assert_eq!(ConstExpr::scale(sum, 2, at(1), at(0)).render(&defs()), "(a + b) * 2");
    let negated = ConstExpr::neg(ConstExpr::add(p(0), p(1), at(0)), at(0));
    assert_eq!(negated.render(&defs()), "-(a + b)");
    let scaled = ConstExpr::add(p(0), ConstExpr::scale(p(1), -2, at(1), at(0)), at(0));
    assert_eq!(scaled.render(&defs()), "a + b * -2");
    assert_eq!(ConstExpr::neg(p(2), at(0)).render(&defs()), "-c");
}

#[test]
fn literals_print_as_signed_decimals() {
    assert_eq!(ConstExpr::lit(-3, at(0)).render(&defs()), "-3");
    assert_eq!(ConstExpr::lit(0, at(0)).render(&defs()), "0");
    assert_eq!(
        ConstExpr::lit(i128::MIN, at(0)).render(&defs()),
        "-170141183460469231731687303715884105728"
    );
}

fn lit(value: u128, span: Span) -> syntax::ConstExpr {
    syntax::ConstExpr {
        kind: syntax::ConstExprKind::Lit(Literal::Int { value, suffix: None }),
        span,
    }
}

fn lit_of(literal: Literal) -> syntax::ConstExpr {
    syntax::ConstExpr { kind: syntax::ConstExprKind::Lit(literal), span: at(4) }
}

fn neg(operand: syntax::ConstExpr, span: Span) -> syntax::ConstExpr {
    syntax::ConstExpr { kind: syntax::ConstExprKind::Neg(Box::new(operand)), span }
}

fn param(res: Res, span: Span) -> syntax::ConstExpr {
    syntax::ConstExpr { kind: syntax::ConstExprKind::Param(res), span }
}

fn refused(e: &syntax::ConstExpr) -> Diagnostic {
    match lower(e) {
        Err(d) => d,
        Ok(c) => panic!("lowered to {c:?}"),
    }
}

#[test]
fn an_integer_literal_lowers_to_its_value() {
    let lowered = lower(&lit(42, at(2))).unwrap();
    assert!(matches!(lowered.kind, ConstExprKind::Lit(42)));
    assert_eq!(lowered.span, at(2));
}

#[test]
fn a_negated_literal_folds_and_keeps_the_least_i128() {
    let min = lower(&neg(lit(1u128 << 127, at(1)), at(0))).unwrap();
    assert!(matches!(min.kind, ConstExprKind::Lit(i128::MIN)));
    assert_eq!(min.span, at(0));
    let too_large = refused(&lit(1u128 << 127, at(1)));
    assert_eq!(too_large.message, "this const argument is too large");
    assert_eq!(too_large.labels[0].span, at(1));
    let beyond = refused(&neg(lit((1u128 << 127) + 1, at(1)), at(0)));
    assert_eq!(beyond.labels[0].span, at(0));
}

#[test]
fn a_doubly_negated_literal_is_a_negation_of_a_literal() {
    let lowered = lower(&neg(neg(lit(3, at(2)), at(1)), at(0))).unwrap();
    match lowered.kind {
        ConstExprKind::Neg(inner) => assert!(matches!(inner.kind, ConstExprKind::Lit(-3))),
        other => panic!("expected a negation, found {other:?}"),
    }
}

#[test]
fn every_literal_that_is_not_an_unsuffixed_integer_is_refused() {
    let suffixed = refused(&lit_of(Literal::Int { value: 4, suffix: Some(NumSuffix::I32) }));
    assert_eq!(suffixed.code.0, NOT_A_CONST_EXPRESSION);
    assert_eq!(suffixed.message, "a const argument carries no type suffix");
    assert_eq!(suffixed.suggestions.len(), 1);
    assert_eq!(suffixed.suggestions[0].replacement, "");

    let cases = [
        (Literal::Float { bits: 1.5f64.to_bits(), suffix: None }, "this is a float"),
        (Literal::Str("a".to_string()), "this is a string"),
        (Literal::Char('x'), "this is a character"),
        (Literal::Bool(true), "this is a boolean"),
        (Literal::Null, "this is `null`"),
    ];
    for (literal, label) in cases {
        let d = refused(&lit_of(literal));
        assert_eq!(d.message, "a const argument is an integer expression");
        assert_eq!(d.labels[0].message, label);
        assert!(d.labels[0].primary);
        assert_eq!(d.notes.len(), 1);
    }
}

#[test]
fn an_unresolved_name_and_a_division_are_refused() {
    let unresolved = refused(&param(Res::Error, at(7)));
    assert_eq!(unresolved.message, "this name did not resolve");
    assert_eq!(unresolved.labels[0].message, "reported already");
    let division = syntax::ConstExpr {
        kind: syntax::ConstExprKind::Div {
            operand: Box::new(param(Res::Def(DefId(0)), at(0))),
            divisor: Literal::Int { value: 2, suffix: None },
            divisor_span: at(5),
        },
        span: at(0),
    };
    let d = refused(&division);
    assert_eq!(d.message, "a const expression cannot divide yet");
    assert_eq!(d.labels[0].span, at(5));
}

#[test]
fn a_product_lowers_to_a_scale_and_checks_its_factor_first() {
    let product = syntax::ConstExpr {
        kind: syntax::ConstExprKind::Mul {
            operand: Box::new(param(Res::Def(DefId(3)), at(0))),
            factor: Literal::Int { value: 3, suffix: None },
            factor_span: at(9),
        },
        span: at(0),
    };
    let lowered = lower(&product).unwrap();
    assert_eq!(lowered.render(&defs()), "ORDER * 3");
    match lowered.kind {
        ConstExprKind::Scale { factor, factor_span, .. } => {
            assert_eq!(factor, 3);
            assert_eq!(factor_span, at(9));
        }
        other => panic!("expected a scale, found {other:?}"),
    }
    let bad_both = syntax::ConstExpr {
        kind: syntax::ConstExprKind::Mul {
            operand: Box::new(param(Res::Error, at(0))),
            factor: Literal::Bool(false),
            factor_span: at(9),
        },
        span: at(0),
    };
    assert_eq!(refused(&bad_both).labels[0].span, at(9));
}

#[test]
fn the_left_operand_is_lowered_first() {
    let sum = syntax::ConstExpr {
        kind: syntax::ConstExprKind::Add(
            Box::new(param(Res::Error, at(1))),
            Box::new(lit_of(Literal::Null)),
        ),
        span: at(0),
    };
    assert_eq!(refused(&sum).labels[0].span, at(1));
    let fine = syntax::ConstExpr {
        kind: syntax::ConstExprKind::Sub(
            Box::new(param(Res::Def(DefId(0)), at(1))),
            Box::new(lit(1, at(3))),
        ),
        span: at(0),
    };
    assert_eq!(lower(&fine).unwrap().render(&defs()), "a - 1");
}
