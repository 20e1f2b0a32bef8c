use science::assign::{DefKind, Definition};
use science::check::{
    argument_order, is_operand_type, literal_admits, numeric_name, numeric_shape, output_is_unary, root_param, Numeric,
    Shape,
};
use science::infer::Span;
use science::items::Prelude;
use science::ty::{DefId, GenericArg, Ty, TyKind, Types};

fn def(id: u32, kind: DefKind, name: &str, builtin: bool) -> Definition {
    Definition { id: DefId(id), kind, name: name.to_string(), builtin, span: Span { start: 0, end: 1 } }
}

fn table() -> Vec<Definition> {
    vec![
        def(1, DefKind::Primitive, "Bool", true),
        def(2, DefKind::Primitive, "Int", true),
        def(3, DefKind::Primitive, "F64", true),
        def(4, DefKind::Primitive, "String", true),
        def(5, DefKind::Primitive, "CInt", true),
        def(6, DefKind::Record, "Doc", false),
        def(7, DefKind::Choice, "Shape", false),
        def(8, DefKind::Param, "T", false),
        def(9, DefKind::Fn, "print", true),
        def(30, DefKind::Local, "at", false),
        def(31, DefKind::Local, "n", false),
    ]
}

#[test]
fn numbers_go_by_the_shape_of_their_slot() {
    let defs = table();
    let prelude = Prelude::of(&defs, &[]);
    let mut types = Types::new();
    let int = types.named(DefId(2), vec![]);
    let float = types.named(DefId(3), vec![]);
    let string = types.named(DefId(4), vec![]);
    let cint = types.named(DefId(5), vec![]);
    let doc = types.named(DefId(6), vec![]);
    let shape = types.named(DefId(7), vec![]);
    let array = types.named(DefId(5), vec![GenericArg::Type(int)]);
    let param = types.param(DefId(8));
    let maybe_float = types.nullable(float);
    let pair = types.tuple(vec![int, int]);
    let borrowed = types.intern(TyKind::Borrowed { mutable: false, inner: int });
    assert_eq!(numeric_shape(&prelude, &types, &defs, int), Shape::Integer);
    assert_eq!(numeric_shape(&prelude, &types, &defs, float), Shape::Float);
    assert_eq!(numeric_shape(&prelude, &types, &defs, maybe_float), Shape::Float);
    assert_eq!(numeric_shape(&prelude, &types, &defs, string), Shape::NotANumber);
    assert_eq!(numeric_shape(&prelude, &types, &defs, doc), Shape::NotANumber);
    assert_eq!(numeric_shape(&prelude, &types, &defs, shape), Shape::NotANumber);
    assert_eq!(numeric_shape(&prelude, &types, &defs, array), Shape::NotANumber);
    assert_eq!(numeric_shape(&prelude, &types, &defs, pair), Shape::NotANumber);
    assert_eq!(numeric_shape(&prelude, &types, &defs, borrowed), Shape::NotANumber);
    assert_eq!(numeric_shape(&prelude, &types, &defs, Ty::unit()), Shape::NotANumber);
    assert_eq!(numeric_shape(&prelude, &types, &defs, cint), Shape::Unanswerable);
    assert_eq!(numeric_shape(&prelude, &types, &defs, param), Shape::Unanswerable);
    assert_eq!(numeric_shape(&prelude, &types, &defs, Ty::error()), Shape::Unanswerable);
    assert_eq!(numeric_shape(&Prelude::empty(), &types, &defs, string), Shape::Unanswerable);

    assert!(literal_admits(&prelude, &types, &defs, Some(Numeric::Integer), float));
    assert!(!literal_admits(&prelude, &types, &defs, Some(Numeric::Float), int));
    assert!(literal_admits(&prelude, &types, &defs, Some(Numeric::Float), cint));
    assert!(!literal_admits(&prelude, &types, &defs, Some(Numeric::Integer), doc));
    assert!(!literal_admits(&prelude, &types, &defs, Some(Numeric::Null), int));
    assert!(literal_admits(&prelude, &types, &defs, Some(Numeric::Null), param));
    assert!(literal_admits(&prelude, &types, &defs, None, doc));
}

#[test]
fn an_open_literal_is_named_by_what_it_came_from() {
    assert_eq!(numeric_name(Some(Numeric::Integer)), "an integer literal");
    assert_eq!(numeric_name(Some(Numeric::Float)), "a floating-point literal");
    assert_eq!(numeric_name(Some(Numeric::Null)), "`null`");
    assert_eq!(numeric_name(None), "a value of an undetermined type");
}

#[test]
fn an_operand_type_is_a_number_or_unclassifiable() {
    let defs = table();
    let prelude = Prelude::of(&defs, &[]);
    let mut types = Types::new();
    let int = types.named(DefId(2), vec![]);
    let string = types.named(DefId(4), vec![]);
    let doc = types.named(DefId(6), vec![]);
    let param = types.param(DefId(8));
    assert!(is_operand_type(&prelude, &types, int));
    assert!(is_operand_type(&prelude, &types, param));
    assert!(is_operand_type(&prelude, &types, Ty::error()));
    assert!(!is_operand_type(&prelude, &types, doc));
    assert!(!is_operand_type(&prelude, &types, string));
    assert!(is_operand_type(&Prelude::empty(), &types, doc));
}

#[test]
fn a_root_parameter_is_read_through_one_borrow() {
    let mut types = Types::new();
    let int = types.named(DefId(2), vec![]);
    let param = types.param(DefId(8));
    let borrowed = types.intern(TyKind::Borrowed { mutable: false, inner: param });
    assert_eq!(root_param(&types, param), Some((DefId(8), false)));
    assert_eq!(root_param(&types, borrowed), Some((DefId(8), true)));
    assert_eq!(root_param(&types, int), None);
}

#[test]
fn arguments_fill_parameters_by_label_then_position() {
    let defs = table();
    let params = vec![(DefId(30), Ty::unit()), (DefId(31), Ty::unit())];
    let labels = vec![None, Some("at".to_string()), Some("missing".to_string()), None, Some("n".to_string())];
    assert_eq!(argument_order(&defs, &params, &labels), vec![Some(0), Some(0), None, None, Some(1)]);
}

#[test]
fn print_is_held_to_one_value() {
    let defs = table();
    let prelude = Prelude::of(&defs, &[]);
    let span = Span { start: 3, end: 9 };
    let two = output_is_unary(&prelude, DefId(9), 2, span).unwrap();
    assert_eq!(two.message, "`print` takes one value");
    assert_eq!(two.labels[0].message, "2 arguments were supplied");
    assert!(output_is_unary(&prelude, DefId(9), 1, span).is_none());
    assert!(output_is_unary(&prelude, DefId(6), 3, span).is_none());
}
