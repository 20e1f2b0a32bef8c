use science::infer::Span;
use science::assign::{
    assignable, Coercion, Coercions, DeclaredImplementations, DefKind, Definition, Site,
};
use science::check::{is_opaque, is_prelude_named, widen_numeric, Indexing, Numeric};
use science::conform::unanswered;
use science::fold::{fold_children, rebuild, ConstEvalError, TypeFolder};
use science::ty::{DefId, GenericArg, NormalForm, Ty, TyKind, Types};

#[test]
fn interning_gives_one_index_per_kind() {
    let mut types = Types::new();
    assert_eq!(types.len(), 2);
    let a = types.param(DefId(7));
    let b = types.param(DefId(7));
    assert_eq!(a, b);
    assert_eq!(types.len(), 3);
    let t1 = types.tuple(vec![a, Ty::unit()]);
    let t2 = types.tuple(vec![a, Ty::unit()]);
    assert_eq!(t1, t2);
    let c = types.param(DefId(8));
    assert_ne!(a, c);
}

#[test]
fn nullable_is_idempotent() {
    let mut types = Types::new();
    let p = types.param(DefId(1));
    let once = types.nullable(p);
    let twice = types.nullable(once);
    assert_eq!(once, twice);
    assert!(matches!(types.kind(once), TyKind::Nullable(inner) if *inner == p));
}

#[test]
fn an_error_anywhere_is_an_error_reference() {
    let mut types = Types::new();
    let p = types.param(DefId(1));
    let named = types.named(
        DefId(9),
        vec![GenericArg::Const(NormalForm { constant: 3, terms: vec![] }), GenericArg::Type(Ty::error())],
    );
    let clean = types.named(DefId(9), vec![GenericArg::Type(p)]);
    let closure = types.closure(vec![p], named);
    assert!(types.references_error(named));
    assert!(types.references_error(closure));
    assert!(!types.references_error(clean));
    assert!(types.compatible(named, clean));
    assert!(!types.compatible(p, clean));
    assert!(types.compatible(p, p));
}

/// Replaces one parameter with another type.
struct Replace {
    from: Ty,
    to: Ty,
}

impl TypeFolder for Replace {
    fn fold_ty(&mut self, types: &mut Types, ty: Ty) -> Result<Ty, ConstEvalError> {
        if ty == self.from {
            return Ok(self.to);
        }
        fold_children(self, types, ty)
    }
}

#[test]
fn folding_rebuilds_what_moved_and_keeps_what_did_not() {
    let mut types = Types::new();
    let t = types.param(DefId(1));
    let u = types.param(DefId(2));
    let nullable_t = types.nullable(t);
    let pair = types.tuple(vec![t, u]);
    let boxed = types.named(DefId(5), vec![GenericArg::Type(pair)]);
    let mut folder = Replace { from: t, to: nullable_t };
    // `T?` substituted into `T?` is `T?`, not `T??`.
    assert_eq!(fold_children(&mut folder, &mut types, nullable_t), Ok(nullable_t));
    let folded = fold_children(&mut folder, &mut types, boxed).unwrap();
    let expected_pair = types.tuple(vec![nullable_t, u]);
    let expected = types.named(DefId(5), vec![GenericArg::Type(expected_pair)]);
    assert_eq!(folded, expected);
    // A leaf is itself, and a type with nothing to replace is itself.
    assert_eq!(fold_children(&mut folder, &mut types, u), Ok(u));
    let mut other = Replace { from: Ty::unit(), to: u };
    assert_eq!(fold_children(&mut other, &mut types, boxed), Ok(boxed));
}

#[test]
fn literal_kinds_widen() {
    assert_eq!(widen_numeric(Numeric::Integer, Numeric::Float), Numeric::Float);
    assert_eq!(widen_numeric(Numeric::Null, Numeric::Integer), Numeric::Integer);
    assert_eq!(widen_numeric(Numeric::Float, Numeric::Null), Numeric::Float);
    assert_eq!(widen_numeric(Numeric::Integer, Numeric::Integer), Numeric::Integer);
    assert_eq!(widen_numeric(Numeric::Null, Numeric::Null), Numeric::Null);
}

#[test]
fn indexing_dispatches_by_position() {
    assert_eq!(Indexing::Read.dispatch(), ("Index", "index"));
    assert_eq!(Indexing::Write.dispatch(), ("IndexMutably", "index_mutably"));
}

#[test]
fn what_this_phase_can_classify() {
    let mut types = Types::new();
    let p = types.param(DefId(1));
    let named = types.named(DefId(2), vec![]);
    let with_error = types.named(DefId(2), vec![GenericArg::Type(Ty::error())]);
    let tuple = types.tuple(vec![named]);
    assert!(is_prelude_named(&types, named));
    assert!(!is_prelude_named(&types, tuple));
    assert!(is_opaque(&types, p));
    assert!(is_opaque(&types, with_error));
    assert!(!is_opaque(&types, named));
    assert!(!is_opaque(&types, tuple));
}

#[test]
fn an_unanswered_associated_type_is_found_anywhere() {
    let mut types = Types::new();
    let assoc = types.intern(TyKind::SelfAssoc { assoc: DefId(4) });
    let borrowed = types.borrowed(false, assoc);
    let named = types.named(DefId(3), vec![GenericArg::Type(borrowed)]);
    let plain = types.named(DefId(3), vec![]);
    assert!(unanswered(&types, assoc));
    assert!(unanswered(&types, borrowed));
    assert!(unanswered(&types, named));
    assert!(!unanswered(&types, plain));
}

#[test]
fn sites_that_box() {
    assert!(Site::Return.boxes());
    assert!(Site::Argument.boxes());
    assert!(!Site::Elsewhere.boxes());
}

fn prelude() -> Vec<Definition> {
    vec![
        Definition { id: DefId(10), kind: DefKind::Interface, name: "Error".to_string(), builtin: true, span: Span { start: 0, end: 0 } },
        Definition { id: DefId(11), kind: DefKind::Interface, name: "Copy".to_string(), builtin: true, span: Span { start: 0, end: 0 } },
        Definition { id: DefId(12), kind: DefKind::Primitive, name: "Box".to_string(), builtin: true, span: Span { start: 0, end: 0 } },
        Definition { id: DefId(13), kind: DefKind::Interface, name: "Summarize".to_string(), builtin: false, span: Span { start: 0, end: 0 } },
    ]
}

#[test]
fn the_prelude_names_are_found_by_kind_and_name() {
    let coercions = Coercions::of(&prelude());
    assert_eq!(coercions.error_interface(), Some(DefId(10)));
    assert_eq!(coercions.copy_interface(), Some(DefId(11)));
    assert_eq!(coercions.box_type(), Some(DefId(12)));
    let none = Coercions::new();
    assert_eq!(none.error_interface(), None);
    let user_error = vec![Definition {
        id: DefId(1),
        kind: DefKind::Interface,
        name: "Error".to_string(),
        builtin: false,
        span: Span { start: 0, end: 0 },
    }];
    assert_eq!(Coercions::of(&user_error).error_interface(), None);
}

#[test]
fn assignability_rule_by_rule() {
    let mut types = Types::new();
    let coercions = Coercions::of(&prelude());
    let my_error = types.named(DefId(20), vec![]);
    let doc = types.named(DefId(21), vec![]);
    let any_error = types.object(DefId(10), vec![]);
    let any_error_opt = types.nullable(any_error);
    let any_summarize = types.object(DefId(13), vec![]);
    let doc_opt = types.nullable(doc);
    let borrowed_doc = types.borrowed(false, doc);
    let borrowed_any = types.borrowed(false, any_summarize);
    let box_doc = types.named(DefId(12), vec![GenericArg::Type(doc)]);
    let box_any = types.named(DefId(12), vec![GenericArg::Type(any_summarize)]);
    let borrowed_doc_opt = types.nullable(borrowed_doc);
    let methods = DeclaredImplementations {
        blocks: vec![(DefId(20), DefId(10)), (DefId(21), DefId(13)), (DefId(21), DefId(11))],
    };
    let site = Site::Elsewhere;
    assert_eq!(assignable(&types, &methods, coercions, site, doc, doc), Some(Coercion::Identity));
    assert_eq!(assignable(&types, &methods, coercions, site, Ty::error(), doc), Some(Coercion::Identity));
    assert_eq!(assignable(&types, &methods, coercions, site, doc, doc_opt), Some(Coercion::Widen));
    assert_eq!(assignable(&types, &methods, coercions, site, doc_opt, doc), None);
    assert_eq!(assignable(&types, &methods, coercions, Site::Return, my_error, any_error), Some(Coercion::Box));
    assert_eq!(assignable(&types, &methods, coercions, Site::Elsewhere, my_error, any_error), None);
    assert_eq!(
        assignable(&types, &methods, coercions, Site::Argument, my_error, any_error_opt),
        Some(Coercion::BoxThenWiden)
    );
    assert_eq!(assignable(&types, &methods, coercions, Site::Return, doc, any_error), None);
    assert_eq!(assignable(&types, &methods, coercions, site, borrowed_doc, borrowed_any), Some(Coercion::Unsize));
    assert_eq!(assignable(&types, &methods, coercions, site, box_doc, box_any), Some(Coercion::UnsizeInBox));
    assert_eq!(assignable(&types, &methods, coercions, site, borrowed_doc, doc), Some(Coercion::Copy));
    assert_eq!(assignable(&types, &methods, coercions, site, borrowed_doc, doc_opt), Some(Coercion::CopyThenWiden));
    assert_eq!(
        assignable(&types, &methods, coercions, site, borrowed_doc_opt, doc_opt),
        Some(Coercion::CopyWhenPresent)
    );
    // Without the prelude only equality and widening remain.
    let bare = Coercions::new();
    assert_eq!(assignable(&types, &methods, bare, Site::Return, my_error, any_error), None);
    assert_eq!(assignable(&types, &methods, bare, site, borrowed_doc, doc), None);
}

#[test]
fn a_closure_has_its_return_type_folded_too() {
    let mut types = Types::new();
    let t = types.param(DefId(1));
    let nullable_t = types.nullable(t);
    let closure = types.closure(vec![], t);
    let mut folder = Replace { from: t, to: nullable_t };
    let folded = fold_children(&mut folder, &mut types, closure).unwrap();
    assert_ne!(folded, closure);
    assert_eq!(folded, types.closure(vec![], nullable_t));
}

#[test]
fn rebuilding_puts_the_new_parts_in_place() {
    let mut types = Types::new();
    let t = types.param(DefId(1));
    let u = types.param(DefId(2));
    let nullable_u = types.nullable(u);
    let nullable_t = types.nullable(t);
    let pair = types.tuple(vec![t, u]);
    // Nothing moved: the very same type.
    assert_eq!(rebuild(&mut types, pair, vec![t, u], vec![]), pair);
    let swapped = rebuild(&mut types, pair, vec![u, t], vec![]);
    assert_eq!(swapped, types.tuple(vec![u, t]));
    // A nullable of a nullable is the nullable.
    assert_eq!(rebuild(&mut types, nullable_t, vec![nullable_u], vec![]), nullable_u);
    assert_eq!(rebuild(&mut types, nullable_t, vec![u], vec![]), nullable_u);
    let boxed = types.named(DefId(5), vec![GenericArg::Type(t)]);
    assert_eq!(rebuild(&mut types, boxed, vec![], vec![GenericArg::Type(u)]), types.named(DefId(5), vec![GenericArg::Type(u)]));
    assert_eq!(rebuild(&mut types, u, vec![], vec![]), u);
}

/// Fails on one type and counts its calls.
struct FailOn {
    bad: Ty,
    calls: usize,
}

impl TypeFolder for FailOn {
    fn fold_ty(&mut self, types: &mut Types, ty: Ty) -> Result<Ty, ConstEvalError> {
        self.calls += 1;
        if ty == self.bad {
            return Err(ConstEvalError::Overflow { at: None });
        }
        fold_children(self, types, ty)
    }
}

#[test]
fn the_first_failure_is_the_answer_and_stops_the_fold() {
    let mut types = Types::new();
    let t = types.param(DefId(1));
    let u = types.param(DefId(2));
    let v = types.param(DefId(3));
    let triple = types.tuple(vec![t, u, v]);
    let mut folder = FailOn { bad: u, calls: 0 };
    assert_eq!(fold_children(&mut folder, &mut types, triple), Err(ConstEvalError::Overflow { at: None }));
    assert_eq!(folder.calls, 2);
    // A leaf calls nothing.
    let mut untouched = FailOn { bad: u, calls: 0 };
    assert_eq!(fold_children(&mut untouched, &mut types, u), Ok(u));
    assert_eq!(untouched.calls, 0);
}
