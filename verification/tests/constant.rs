use science::assign::{DefKind, Definition};
use science::codes::CONST_INITIALISER_NOT_A_LITERAL;
use science::constant::lower;
use science::infer::Span;
use science::items::Prelude;
use science::syntax::{Expr, ExprKind, Literal, NumSuffix};
use science::ty::{DefId, Types};

fn prelude() -> Prelude {
    let names = ["Bool", "String", "Char", "I32", "Int", "Float", "F32"];
    let defs: Vec<Definition> = names
        .iter()
        .enumerate()
        .map(|(i, name)| Definition {
            id: DefId(i as u32 + 1),
            kind: DefKind::Primitive,
            name: name.to_string(),
            builtin: true,
            span: Span { start: 0, end: 0 },
        })
        .collect();
    Prelude::of(&defs, &[("I64", "Int"), ("F64", "Float")])
}

fn literal(literal: Literal) -> Expr {
    Expr { kind: ExprKind::Literal(literal), span: Span { start: 4, end: 7 } }
}

#[test]
fn an_unannotated_integer_constant_takes_the_default_integer_type() {
    let prelude = prelude();
    let mut types = Types::new();
    let mut diagnostics = Vec::new();
    let width = literal(Literal::Int { value: 768, suffix: None });
    let evaluated = lower(&width, None, &prelude, &mut types, &mut diagnostics);
    assert_eq!(Some(evaluated.ty), prelude.default_int(&mut types));
    assert!(matches!(evaluated.value, Some(Literal::Int { value: 768, suffix: None })));
    assert!(diagnostics.is_empty());
}

#[test]
fn a_suffix_names_the_constant_type() {
    let prelude = prelude();
    let mut types = Types::new();
    let mut diagnostics = Vec::new();
    let e = literal(Literal::Int { value: 5, suffix: Some(NumSuffix::I32) });
    let evaluated = lower(&e, None, &prelude, &mut types, &mut diagnostics);
    assert_eq!(Some(evaluated.ty), prelude.ty(&mut types, "I32"));
    assert!(evaluated.value.is_some());
}

#[test]
fn a_literal_of_another_kind_than_the_annotation_is_not_substituted() {
    let prelude = prelude();
    let mut types = Types::new();
    let mut diagnostics = Vec::new();
    let f64 = prelude.ty(&mut types, "F64").unwrap();
    let five = literal(Literal::Int { value: 5, suffix: None });
    let evaluated = lower(&five, Some(f64), &prelude, &mut types, &mut diagnostics);
    assert_eq!(evaluated.ty, f64);
    assert!(evaluated.value.is_none());
    let i32 = prelude.ty(&mut types, "I32").unwrap();
    let narrower = lower(&five, Some(i32), &prelude, &mut types, &mut diagnostics);
    assert!(narrower.value.is_some());
    let text = literal(Literal::Str("hi".to_string()));
    let string = lower(&text, None, &prelude, &mut types, &mut diagnostics);
    assert_eq!(Some(string.ty), prelude.ty(&mut types, "String"));
    assert!(matches!(string.value, Some(Literal::Str(ref s)) if s == "hi"));
    assert!(diagnostics.is_empty());
}

#[test]
fn null_has_no_natural_type_and_is_never_substituted() {
    let prelude = prelude();
    let mut types = Types::new();
    let mut diagnostics = Vec::new();
    let evaluated = lower(&literal(Literal::Null), None, &prelude, &mut types, &mut diagnostics);
    assert_eq!(evaluated.ty.0, 0);
    assert!(evaluated.value.is_none());
}

#[test]
fn an_initialiser_that_is_not_a_literal_is_reported() {
    let prelude = prelude();
    let mut types = Types::new();
    let mut diagnostics = Vec::new();
    let call = Expr { kind: ExprKind::Other, span: Span { start: 9, end: 20 } };
    let evaluated = lower(&call, None, &prelude, &mut types, &mut diagnostics);
    assert_eq!(evaluated.ty.0, 0);
    assert!(evaluated.value.is_none());
    assert_eq!(diagnostics.len(), 1);
    assert_eq!(diagnostics[0].code.0, CONST_INITIALISER_NOT_A_LITERAL);
    assert_eq!(diagnostics[0].message, "this `const` initialiser is not a literal");
    assert_eq!(diagnostics[0].labels[0].span, Span { start: 9, end: 20 });
}

#[test]
fn a_float_constant_takes_the_default_float_type() {
    let prelude = prelude();
    let mut types = Types::new();
    let mut diagnostics = Vec::new();
    let e = literal(Literal::Float { bits: 2.5f64.to_bits(), suffix: None });
    let evaluated = lower(&e, None, &prelude, &mut types, &mut diagnostics);
    assert_eq!(Some(evaluated.ty), prelude.default_float(&mut types));
    assert!(matches!(evaluated.value, Some(Literal::Float { bits, .. }) if f64::from_bits(bits) == 2.5));
}
