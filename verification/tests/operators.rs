use science::check::{binary_operator, unknown_args};
use science::items::{Bound, GenericParam, GenericParamKind};
use science::syntax::BinaryOp;
use science::ty::{DefId, GenericArg, Ty};

#[test]
fn arithmetic_operators_are_interface_calls() {
    assert_eq!(binary_operator(BinaryOp::Add), Some(("Add", "add")));
    assert_eq!(binary_operator(BinaryOp::Sub), Some(("Sub", "sub")));
    assert_eq!(binary_operator(BinaryOp::Mul), Some(("Mul", "mul")));
    assert_eq!(binary_operator(BinaryOp::Div), Some(("Div", "div")));
    assert_eq!(binary_operator(BinaryOp::Rem), Some(("Rem", "rem")));
    assert_eq!(binary_operator(BinaryOp::Pow), Some(("Pow", "pow")));
    assert_eq!(binary_operator(BinaryOp::MatMul), Some(("MatMul", "matmul")));
    for op in [BinaryOp::Eq, BinaryOp::Ne, BinaryOp::Lt, BinaryOp::Le, BinaryOp::Gt, BinaryOp::Ge, BinaryOp::And, BinaryOp::Or] {
        assert_eq!(binary_operator(op), None);
    }
}

#[test]
fn a_generic_named_bare_gets_arguments_that_say_nothing() {
    let declared = vec![
        GenericParam { def: DefId(1), kind: GenericParamKind::Type { bounds: Vec::<Bound>::new() } },
        GenericParam { def: DefId(2), kind: GenericParamKind::Const },
    ];
    let args = unknown_args(&declared);
    assert_eq!(args.len(), 2);
    assert!(matches!(args[0], GenericArg::Type(ty) if ty == Ty::error()));
    assert!(matches!(args[1], GenericArg::Error));
    assert!(unknown_args(&[]).is_empty());
}
