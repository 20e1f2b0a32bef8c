use science::infer::{InferTy, InferVar, Inference, Span, UnifyError};
use science::ty::{DefId, GenericArg, Ty, Types};

fn span(n: usize) -> Span {
    Span { start: n, end: n + 1 }
}

#[test]
fn fresh_variables_are_numbered_and_remember_their_origin() {
    let mut inference = Inference::new();
    assert!(inference.is_empty());
    let a = inference.fresh(span(3));
    let b = inference.fresh(span(9));
    assert_eq!(a.index(), 0);
    assert_eq!(b.index(), 1);
    assert_eq!(inference.len(), 2);
    assert_eq!(inference.origin(b), span(9));
    assert_eq!(InferTy::Var(a).known(), None);
}

#[test]
fn unifying_two_variables_makes_one_class() {
    let mut types = Types::new();
    let int = types.named(DefId(1), vec![]);
    let mut inference = Inference::new();
    let a = inference.fresh(span(0));
    let b = inference.fresh(span(1));
    let c = inference.fresh(span(2));
    let joined = inference.unify(&types, InferTy::Var(a), InferTy::Var(b)).unwrap();
    assert_eq!(inference.find(a), inference.find(b));
    assert_ne!(inference.find(a), inference.find(c));
    assert!(matches!(joined, InferTy::Var(_)));
    assert_eq!(inference.unresolved().len(), 2);
    let known = inference.unify(&types, InferTy::Var(b), InferTy::Known(int)).unwrap();
    assert_eq!(known, InferTy::Known(int));
    assert_eq!(inference.binding(a), Some(int));
    assert_eq!(inference.resolve(InferTy::Var(a)), InferTy::Known(int));
    assert_eq!(inference.unresolved(), vec![c]);
    let _ = types.param(DefId(2));
}

#[test]
fn binding_twice_is_a_mismatch_and_not_a_replacement() {
    let mut types = Types::new();
    let int = types.named(DefId(1), vec![]);
    let float = types.named(DefId(2), vec![]);
    let mut inference = Inference::new();
    let a = inference.fresh(span(0));
    assert_eq!(inference.bind(&types, a, int), Ok(int));
    assert_eq!(inference.bind(&types, a, float), Err(UnifyError::Mismatch { left: int, right: float }));
    assert_eq!(inference.binding(a), Some(int));
    assert_eq!(inference.bind(&types, a, int), Ok(int));
}

#[test]
fn an_erroneous_type_yields_to_the_other() {
    let mut types = Types::new();
    let int = types.named(DefId(1), vec![]);
    let broken = types.named(DefId(3), vec![GenericArg::Type(Ty::error())]);
    let mut inference = Inference::new();
    let a = inference.fresh(span(0));
    inference.bind(&types, a, broken).unwrap();
    assert_eq!(inference.bind(&types, a, int), Ok(int));
    assert_eq!(inference.binding(a), Some(int));
    assert_eq!(
        inference.unify(&types, InferTy::Known(Ty::error()), InferTy::Known(int)),
        Ok(InferTy::Known(int))
    );
}

#[test]
fn two_bound_classes_that_disagree_are_not_merged() {
    let mut types = Types::new();
    let int = types.named(DefId(1), vec![]);
    let float = types.named(DefId(2), vec![]);
    let mut inference = Inference::new();
    let a = inference.fresh(span(0));
    let b = inference.fresh(span(1));
    inference.bind(&types, a, int).unwrap();
    inference.bind(&types, b, float).unwrap();
    assert!(inference.unify(&types, InferTy::Var(a), InferTy::Var(b)).is_err());
    assert_ne!(inference.find(a), inference.find(b));
}

#[test]
fn a_long_chain_resolves_to_one_root() {
    let types = Types::new();
    let mut inference = Inference::new();
    let vars: Vec<InferVar> = (0..50).map(|n| inference.fresh(span(n))).collect();
    for pair in vars.windows(2) {
        inference.unify(&types, InferTy::Var(pair[0]), InferTy::Var(pair[1])).unwrap();
    }
    let root = inference.find(vars[0]);
    for var in &vars {
        assert_eq!(inference.find(*var), root);
    }
    assert_eq!(inference.unresolved(), vec![root]);
}

#[test]
fn a_merged_class_keeps_the_binding_either_side_had() {
    let mut types = Types::new();
    let int = types.named(DefId(1), vec![]);
    let broken = types.named(DefId(3), vec![GenericArg::Type(Ty::error())]);
    let mut inference = Inference::new();
    let a = inference.fresh(span(0));
    let b = inference.fresh(span(1));
    let c = inference.fresh(span(2));
    let d = inference.fresh(span(3));
    assert_eq!(inference.bind(&types, a, int), Ok(int));
    assert_eq!(inference.unify(&types, InferTy::Var(b), InferTy::Var(a)), Ok(InferTy::Known(int)));
    assert_eq!(inference.binding(b), Some(int));
    assert_eq!(inference.binding(a), Some(int));
    // Both bound: the class takes what the two agree on.
    assert_eq!(inference.bind(&types, c, broken), Ok(broken));
    assert_eq!(inference.unify(&types, InferTy::Var(c), InferTy::Var(a)), Ok(InferTy::Known(int)));
    assert_eq!(inference.binding(c), Some(int));
    // A variable against a type, in either order, binds as `bind` would.
    assert_eq!(inference.unify(&types, InferTy::Known(int), InferTy::Var(d)), Ok(InferTy::Known(int)));
    assert_eq!(inference.binding(d), Some(int));
    let root = inference.find(d);
    assert_eq!(inference.find(root), root);
}
