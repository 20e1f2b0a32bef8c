use science::assign::{DefKind, Definition};
use science::infer::Span;
use science::items::{
    named, param_bounds, Bound, Declarations, GenericParam, GenericParamKind, Named, Param, PredicateTarget,
    Prelude, Record, Res, Signature, Variant, WherePredicate,
};
use science::constant::Evaluated;
use science::syntax::Literal;
use science::ty::{DefId, GenericArg, Ty, Types};

fn builtin(id: u32, kind: DefKind, name: &str) -> Definition {
    Definition { id: DefId(id), kind, name: name.to_string(), builtin: true, span: span() }
}

fn user(id: u32, kind: DefKind, name: &str) -> Definition {
    Definition { id: DefId(id), kind, name: name.to_string(), builtin: false, span: span() }
}

fn span() -> Span {
    Span { start: 0, end: 1 }
}

/// A prelude with the primitives the predicates ask about.
fn prelude_defs() -> Vec<Definition> {
    vec![
        user(100, DefKind::Record, "Bool"),
        builtin(1, DefKind::Primitive, "Bool"),
        builtin(2, DefKind::Primitive, "Int"),
        builtin(3, DefKind::Primitive, "Float"),
        builtin(4, DefKind::Primitive, "String"),
        builtin(5, DefKind::Primitive, "Never"),
        builtin(6, DefKind::Fn, "print"),
        builtin(7, DefKind::Fn, "write"),
        builtin(8, DefKind::Fn, "panic"),
        builtin(9, DefKind::Primitive, "Bool"),
        builtin(10, DefKind::Interface, "Summarize"),
    ]
}

const ALIASED: &[(&str, &str)] = &[("I64", "Int"), ("F64", "Float")];

#[test]
fn the_prelude_finds_builtin_names_first_one_first() {
    let prelude = Prelude::of(&prelude_defs(), ALIASED);
    assert_eq!(prelude.get("Bool"), Some(DefId(1)));
    assert_eq!(prelude.get("Int"), Some(DefId(2)));
    assert_eq!(prelude.get("panic"), Some(DefId(8)));
    assert_eq!(prelude.panic(), Some(DefId(8)));
    assert_eq!(prelude.get("Summarize"), None);
    assert!(prelude.is_available());
}

#[test]
fn a_primitive_with_two_spellings_is_one_definition() {
    let prelude = Prelude::of(&prelude_defs(), ALIASED);
    assert_eq!(prelude.get("I64"), Some(DefId(2)));
    assert_eq!(prelude.get("F64"), Some(DefId(3)));
    let without = Prelude::of(&prelude_defs(), &[]);
    assert_eq!(without.get("I64"), None);
}

#[test]
fn a_table_built_by_hand_has_no_prelude() {
    let prelude = Prelude::of(&[user(1, DefKind::Record, "Bool")], ALIASED);
    assert!(!prelude.is_available());
    let mut types = Types::new();
    let ty = types.named(DefId(1), vec![]);
    assert!(!prelude.is_bool(&types, ty));
    assert!(!Prelude::empty().is_numeric(&types, ty));
    assert_eq!(prelude.ty(&mut types, "Bool"), None);
}

#[test]
fn the_prelude_classifies_primitive_types() {
    let prelude = Prelude::of(&prelude_defs(), ALIASED);
    let mut types = Types::new();
    let int = prelude.default_int(&mut types).unwrap();
    let float = prelude.default_float(&mut types).unwrap();
    let boolean = prelude.ty(&mut types, "Bool").unwrap();
    let never = prelude.ty(&mut types, "Never").unwrap();
    let string = prelude.ty(&mut types, "String").unwrap();
    let with_arg = types.named(DefId(2), vec![GenericArg::Type(boolean)]);

    assert_eq!(int, prelude.ty(&mut types, "Int").unwrap());
    assert!(prelude.is_integer(&types, int));
    assert!(!prelude.is_float(&types, int));
    assert!(prelude.is_float(&types, float));
    assert!(prelude.is_numeric(&types, int));
    assert!(prelude.is_numeric(&types, float));
    assert!(!prelude.is_numeric(&types, boolean));
    assert!(prelude.is_bool(&types, boolean));
    assert!(prelude.is_never(&types, never));
    assert!(prelude.is_definitely_not_numeric(&types, string));
    assert!(!prelude.is_definitely_not_numeric(&types, int));
    assert!(!prelude.is_integer(&types, with_arg));
    assert!(prelude.is(&types, boolean, "Bool"));
    assert!(!prelude.is(&types, boolean, "Char"));
}

#[test]
fn print_and_write_are_the_unary_output_functions() {
    let prelude = Prelude::of(&prelude_defs(), ALIASED);
    assert_eq!(prelude.unary_output(DefId(6)), Some("print"));
    assert_eq!(prelude.unary_output(DefId(7)), Some("write"));
    assert_eq!(prelude.unary_output(DefId(8)), None);
}

fn signature(def: u32, params: Vec<Param>, ret: Ty, has_body: bool) -> Signature {
    Signature {
        def: DefId(def),
        generics: vec![],
        bounds: vec![],
        self_param: None,
        params,
        ret,
        owner: None,
        has_body,
        span: span(),
    }
}

fn param(def: u32, ty: Ty) -> Param {
    Param { def: DefId(def), ty, span: span() }
}

#[test]
fn a_function_returning_never_cannot_return() {
    let prelude = Prelude::of(&prelude_defs(), ALIASED);
    let mut types = Types::new();
    let never = prelude.ty(&mut types, "Never").unwrap();
    assert!(!signature(20, vec![], never, true).can_return(&prelude, &types));
    assert!(signature(21, vec![], Ty::unit(), true).can_return(&prelude, &types));
}

#[test]
fn a_value_path_names_what_its_definition_is() {
    let defs = vec![
        user(1, DefKind::Local, "x"),
        user(2, DefKind::Fn, "f"),
        user(3, DefKind::Variant, "Left"),
        user(4, DefKind::Const, "WIDTH"),
        user(5, DefKind::Record, "Doc"),
        user(6, DefKind::SelfParam, "self"),
    ];
    assert_eq!(named(&defs, Res::Def(DefId(1))), Some(Named::Local(DefId(1))));
    assert_eq!(named(&defs, Res::Def(DefId(2))), Some(Named::Function(DefId(2))));
    assert_eq!(named(&defs, Res::Def(DefId(3))), Some(Named::Variant(DefId(3))));
    assert_eq!(named(&defs, Res::Def(DefId(4))), Some(Named::Const(DefId(4))));
    assert_eq!(named(&defs, Res::Def(DefId(5))), Some(Named::Other));
    assert_eq!(named(&defs, Res::Def(DefId(6))), Some(Named::Local(DefId(6))));
    assert_eq!(named(&defs, Res::SelfTy(DefId(5))), None);
    assert_eq!(named(&defs, Res::Error), None);
}

#[test]
fn a_map_get_borrows_the_map_and_not_the_key() {
    // `Map.get(self, key: borrowed K) -> (borrowed V)?` inside
    // `Map of (K, V) has:`.
    let (map, k, v, block, get) = (DefId(30), DefId(31), DefId(32), DefId(33), DefId(34));
    let mut types = Types::new();
    let key_ty = types.param(k);
    let value_ty = types.param(v);
    let self_ty = types.named(map, vec![GenericArg::Type(key_ty), GenericArg::Type(value_ty)]);
    let borrowed_key = types.borrowed(false, key_ty);
    let borrowed_value = types.borrowed(false, value_ty);
    let ret = types.nullable(borrowed_value);

    let mut decls = Declarations::new(Prelude::empty());
    decls.declare_block(block, self_ty, vec![k, v], None);
    let mut sig = signature(get.0, vec![param(35, borrowed_key)], ret, false);
    sig.self_param = Some(DefId(36));
    sig.owner = Some(block);
    decls.declare_fn(sig);
    assert_eq!(decls.borrow_sources(&types, get), Some(vec![0]));
}

#[test]
fn a_return_without_a_reference_borrows_nothing() {
    let mut types = Types::new();
    let string = types.named(DefId(4), vec![]);
    let mut decls = Declarations::new(Prelude::empty());
    decls.declare_fn(signature(40, vec![param(41, string)], string, false));
    assert_eq!(decls.borrow_sources(&types, DefId(40)), Some(vec![]));
}

#[test]
fn a_function_with_a_body_or_no_signature_is_not_asked() {
    let types = Types::new();
    let mut decls = Declarations::new(Prelude::empty());
    decls.declare_fn(signature(50, vec![], Ty::unit(), true));
    assert_eq!(decls.borrow_sources(&types, DefId(50)), None);
    assert_eq!(decls.borrow_sources(&types, DefId(51)), None);
}

#[test]
fn two_candidate_sources_are_both_kept() {
    // `swap(a: borrowed T, b: borrowed T) -> borrowed T` gets both.
    let mut types = Types::new();
    let t = types.param(DefId(60));
    let borrowed = types.borrowed(false, t);
    let mut decls = Declarations::new(Prelude::empty());
    decls.declare_fn(signature(61, vec![param(62, borrowed), param(63, borrowed)], borrowed, false));
    assert_eq!(decls.borrow_sources(&types, DefId(61)), Some(vec![0, 1]));
}

#[test]
fn a_referent_no_argument_mentions_is_constrained_by_every_argument() {
    let mut types = Types::new();
    let t = types.param(DefId(70));
    let u = types.param(DefId(71));
    let int = types.named(DefId(2), vec![]);
    let borrowed = types.borrowed(true, t);
    let mut decls = Declarations::new(Prelude::empty());
    decls.declare_fn(signature(72, vec![param(73, int), param(74, u)], borrowed, false));
    assert_eq!(decls.borrow_sources(&types, DefId(72)), Some(vec![0, 1]));
}

#[test]
fn an_array_of_borrows_contributes_what_it_borrows() {
    // `f(xs: Array of T, y: U) -> Array of (borrowed T)` borrows `xs`.
    let mut types = Types::new();
    let t = types.param(DefId(80));
    let u = types.param(DefId(81));
    let array_t = types.named(DefId(82), vec![GenericArg::Type(t)]);
    let borrowed_t = types.borrowed(false, t);
    let ret = types.named(DefId(82), vec![GenericArg::Type(borrowed_t)]);
    let mut decls = Declarations::new(Prelude::empty());
    decls.declare_fn(signature(83, vec![param(84, array_t), param(85, u)], ret, false));
    assert_eq!(decls.borrow_sources(&types, DefId(83)), Some(vec![0]));
}

#[test]
fn bodies_and_declarations_without_are_sorted_and_disjoint() {
    let mut decls = Declarations::new(Prelude::empty());
    decls.declare_fn(signature(9, vec![], Ty::unit(), true));
    decls.declare_fn(signature(3, vec![], Ty::unit(), false));
    decls.declare_fn(signature(7, vec![], Ty::unit(), true));
    decls.declare_fn(signature(1, vec![], Ty::unit(), false));
    decls.declare_fn(signature(5, vec![], Ty::unit(), true));
    // Declaring again replaces.
    decls.declare_fn(signature(5, vec![], Ty::unit(), false));
    assert_eq!(decls.bodies(), vec![DefId(7), DefId(9)]);
    assert_eq!(decls.without_bodies(), vec![DefId(1), DefId(3), DefId(5)]);
    assert!(decls.signature(DefId(5)).is_some());
    assert!(decls.signature(DefId(6)).is_none());
}

#[test]
fn a_block_supplies_the_arguments_of_its_interface() {
    // `interface Index of Idx:` met by `Array of T implements Index of Int:`.
    let (index, idx, array, t, block) = (DefId(90), DefId(91), DefId(92), DefId(93), DefId(94));
    let mut types = Types::new();
    let interface_self = types.self_type(index);
    let t_ty = types.param(t);
    let array_t = types.named(array, vec![GenericArg::Type(t_ty)]);
    let int = types.named(DefId(2), vec![]);
    let mut decls = Declarations::new(Prelude::empty());
    decls.declare_interface(index, interface_self, vec![idx]);
    decls.declare_block(block, array_t, vec![t], Some((index, vec![GenericArg::Type(int)])));
    let pairs = decls.interface_arguments(block);
    assert_eq!(pairs.len(), 1);
    assert_eq!(pairs[0].0, idx);
    assert!(matches!(pairs[0].1, GenericArg::Type(ty) if ty == int));
    assert_eq!(decls.self_ty(block), Some(array_t));
    assert_eq!(decls.block_generics(block), Some(&[t][..]));
    assert!(decls.interface_arguments(DefId(95)).is_empty());
}

#[test]
fn records_variants_and_constants_are_found_by_definition() {
    let mut decls = Declarations::new(Prelude::empty());
    decls.declare_record(Record { def: DefId(1), generics: vec![], fields: vec![(DefId(2), Ty::unit())] });
    decls.declare_variant(Variant { def: DefId(3), choice: DefId(4), generics: vec![], payload: vec![] });
    decls.declare_const(DefId(5), Evaluated { ty: Ty::unit(), value: None });
    decls.declare_const(DefId(7), Evaluated { ty: Ty::unit(), value: Some(Literal::Bool(true)) });
    assert_eq!(decls.record(DefId(1)).map(|r| r.fields.len()), Some(1));
    assert_eq!(decls.variant(DefId(3)).map(|v| v.choice), Some(DefId(4)));
    assert_eq!(decls.const_ty(DefId(5)), Some(Ty::unit()));
    assert_eq!(decls.const_ty(DefId(6)), None);
    assert!(decls.const_value(DefId(5)).is_none());
    assert!(matches!(decls.const_value(DefId(7)), Some(Literal::Bool(true))));
    assert!(decls.record(DefId(3)).is_none());
    assert!(!decls.prelude().is_available());
}

#[test]
fn bounds_come_from_the_list_then_the_where_clause() {
    let at = |n: usize| Span { start: n, end: n + 1 };
    let bound = |res: Res, n: usize| Bound { interface: Some(res), span: at(n) };
    let generics = vec![
        GenericParam {
            def: DefId(10),
            kind: GenericParamKind::Type { bounds: vec![bound(Res::Def(DefId(100)), 1), bound(Res::Error, 2)] },
        },
        GenericParam { def: DefId(11), kind: GenericParamKind::Const },
        GenericParam { def: DefId(12), kind: GenericParamKind::Type { bounds: vec![bound(Res::Def(DefId(101)), 3)] } },
    ];
    let where_clause = vec![
        WherePredicate {
            ty: PredicateTarget::Path { res: Res::Def(DefId(10)), args: 0 },
            bounds: vec![bound(Res::Def(DefId(102)), 4), Bound { interface: None, span: at(5) }],
        },
        WherePredicate {
            ty: PredicateTarget::Path { res: Res::Def(DefId(99)), args: 0 },
            bounds: vec![bound(Res::Def(DefId(103)), 6)],
        },
        WherePredicate {
            ty: PredicateTarget::Path { res: Res::Def(DefId(12)), args: 1 },
            bounds: vec![bound(Res::Def(DefId(104)), 7)],
        },
        WherePredicate { ty: PredicateTarget::Other, bounds: vec![bound(Res::Def(DefId(105)), 8)] },
    ];
    let out = param_bounds(&generics, &where_clause);
    let got: Vec<(u32, u32, usize)> = out.iter().map(|b| (b.param.0, b.interface.0, b.span.start)).collect();
    assert_eq!(got, vec![(10, 100, 1), (12, 101, 3), (10, 102, 4)]);
}
