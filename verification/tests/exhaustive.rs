use science::alias::{AliasDeclaration, Aliases};
use science::assign::{DefKind, Definition};
use science::codes::{NON_EXHAUSTIVE_MATCH, UNREACHABLE_ARM};
use science::diagnostics::Diagnostic;
use science::exhaustive::{
    dedup, match_expr, not_exhaustive, report, unreachable_arm, MatchExpr, Pat, PatKind,
};
use science::infer::Span;
use science::items::{Declarations, Prelude, Record, Variant};
use science::syntax::Literal;
use science::ty::{DefId, Ty, Types};

fn span(n: usize) -> Span {
    Span { start: n, end: n + 1 }
}

fn def(id: u32, kind: DefKind, name: &str, builtin: bool) -> Definition {
    Definition { id: DefId(id), kind, name: name.to_string(), builtin, span: span(id as usize) }
}

/// The definitions every test reads: the prelude's primitives, a choice
/// `Shape` of `Circle(Int)` and `Rect(Int, Int)`, a choice `ConfigError` of
/// `NotFound(String)`, `Malformed(String, Int)` and `Io(String)`, a record
/// `Point(x: Int, y: Int)`, and a choice `Letter` of five unit variants.
fn defs() -> Vec<Definition> {
    vec![
        def(1, DefKind::Primitive, "Bool", true),
        def(2, DefKind::Primitive, "Int", true),
        def(4, DefKind::Primitive, "String", true),
        def(5, DefKind::Primitive, "Never", true),
        def(20, DefKind::Choice, "Shape", false),
        def(21, DefKind::Variant, "Circle", false),
        def(22, DefKind::Variant, "Rect", false),
        def(30, DefKind::Record, "Point", false),
        def(31, DefKind::Local, "x", false),
        def(32, DefKind::Local, "y", false),
        def(40, DefKind::Choice, "ConfigError", false),
        def(41, DefKind::Variant, "NotFound", false),
        def(42, DefKind::Variant, "Malformed", false),
        def(43, DefKind::Variant, "Io", false),
        def(50, DefKind::Choice, "Letter", false),
        def(51, DefKind::Variant, "A", false),
        def(52, DefKind::Variant, "B", false),
        def(53, DefKind::Variant, "C", false),
        def(54, DefKind::Variant, "D", false),
        def(55, DefKind::Variant, "E", false),
        def(60, DefKind::Alias, "Figure", false),
    ]
}

struct World {
    defs: Vec<Definition>,
    decls: Declarations,
    types: Types,
    boolean: Ty,
    int: Ty,
    never: Ty,
    shape: Ty,
    config: Ty,
    config_opt: Ty,
    int_opt: Ty,
    point: Ty,
    letter: Ty,
    pair: Ty,
}

fn world() -> World {
    let defs = defs();
    let mut types = Types::new();
    let boolean = types.named(DefId(1), vec![]);
    let int = types.named(DefId(2), vec![]);
    let string = types.named(DefId(4), vec![]);
    let never = types.named(DefId(5), vec![]);
    let shape = types.named(DefId(20), vec![]);
    let config = types.named(DefId(40), vec![]);
    let config_opt = types.nullable(config);
    let int_opt = types.nullable(int);
    let point = types.named(DefId(30), vec![]);
    let letter = types.named(DefId(50), vec![]);
    let pair = types.tuple(vec![boolean, boolean]);
    let mut decls = Declarations::new(Prelude::of(&defs, &[]));
    let variant = |def: u32, choice: u32, payload: Vec<Ty>| Variant {
        def: DefId(def),
        choice: DefId(choice),
        generics: vec![],
        payload,
    };
    decls.declare_variant(variant(21, 20, vec![int]));
    decls.declare_variant(variant(22, 20, vec![int, int]));
    decls.declare_variant(variant(41, 40, vec![string]));
    decls.declare_variant(variant(42, 40, vec![string, int]));
    decls.declare_variant(variant(43, 40, vec![string]));
    for id in 51..=55 {
        decls.declare_variant(variant(id, 50, vec![]));
    }
    decls.declare_record(Record {
        def: DefId(30),
        generics: vec![],
        fields: vec![(DefId(31), int), (DefId(32), int)],
    });
    World {
        defs,
        decls,
        types,
        boolean,
        int,
        never,
        shape,
        config,
        config_opt,
        int_opt,
        point,
        letter,
        pair,
    }
}

fn pat(kind: PatKind, ty: Ty, at: usize) -> Pat {
    Pat { kind, ty, span: span(at) }
}

fn lit(literal: Literal, ty: Ty, at: usize) -> Pat {
    pat(PatKind::Literal(literal), ty, at)
}

fn int_lit(value: u128, ty: Ty, at: usize) -> Pat {
    lit(Literal::Int { value, suffix: None }, ty, at)
}

fn wild(ty: Ty, at: usize) -> Pat {
    pat(PatKind::Wildcard, ty, at)
}

fn bind(local: u32, ty: Ty, at: usize) -> Pat {
    pat(PatKind::Binding { local: DefId(local) }, ty, at)
}

fn variant(d: u32, elems: Vec<usize>, ty: Ty, at: usize) -> Pat {
    pat(PatKind::Variant { def: Some(DefId(d)), elems }, ty, at)
}

fn check(w: &World, pats: &[Pat], ty: Ty, text: &str, arms: Vec<usize>) -> Vec<Diagnostic> {
    let m = MatchExpr { scrutinee_ty: ty, ty_text: text.to_string(), span: span(900), arms };
    match_expr(pats, &m, &w.defs, &w.decls, &w.types, &Aliases::new())
}

#[test]
fn a_bool_with_both_values_named_is_exhaustive() {
    let w = world();
    let pats = vec![lit(Literal::Bool(true), w.boolean, 0), lit(Literal::Bool(false), w.boolean, 1)];
    assert!(check(&w, &pats, w.boolean, "Bool", vec![0, 1]).is_empty());
}

#[test]
fn a_missing_variant_is_the_message() {
    let w = world();
    let pats = vec![bind(90, w.int, 0), variant(21, vec![0], w.shape, 1)];
    let out = check(&w, &pats, w.shape, "Shape", vec![1]);
    assert_eq!(out.len(), 1);
    assert_eq!(out[0].code.0, NON_EXHAUSTIVE_MATCH);
    assert_eq!(out[0].message, "`Shape` has a value no arm of this `match` covers: `Rect(_, _)`");
    assert_eq!(out[0].labels.len(), 1);
    assert_eq!(out[0].labels[0].span, span(900));
    assert_eq!(out[0].labels[0].message, "this is `Shape`");
    assert_eq!(
        out[0].notes[0],
        "a `match` answers for every value or the program has no answer for the rest; write an arm for `Rect(_, _)` \u{2014} or a `_` arm, which covers everything the arms above leave"
    );
}

/// `null` and every variant of the error, written as patterns of the
/// choice itself, cover a nullable error; dropping `Io` reports `Io(_)`.
fn config_patterns(w: &World) -> Vec<Pat> {
    vec![
        lit(Literal::Null, w.config_opt, 0),
        bind(91, w.int, 1),
        variant(41, vec![1], w.config, 2),
        bind(92, w.int, 3),
        bind(93, w.int, 4),
        variant(42, vec![3, 4], w.config, 5),
        bind(94, w.int, 6),
        variant(43, vec![6], w.config, 7),
    ]
}

#[test]
fn null_and_every_variant_cover_a_nullable_choice() {
    let w = world();
    let pats = config_patterns(&w);
    assert!(check(&w, &pats, w.config_opt, "ConfigError?", vec![0, 2, 5, 7]).is_empty());
}

#[test]
fn a_variant_missing_under_a_nullable_is_printed_without_the_present_constructor() {
    let w = world();
    let pats = config_patterns(&w);
    let out = check(&w, &pats, w.config_opt, "ConfigError?", vec![0, 2, 5]);
    assert_eq!(out.len(), 1);
    assert_eq!(out[0].message, "`ConfigError?` has a value no arm of this `match` covers: `Io(_)`");
}

#[test]
fn a_missing_null_is_reported() {
    let w = world();
    let pats = config_patterns(&w);
    let out = check(&w, &pats, w.config_opt, "ConfigError?", vec![2, 5, 7]);
    assert_eq!(out.len(), 1);
    assert_eq!(out[0].message, "`ConfigError?` has a value no arm of this `match` covers: `null`");
}

#[test]
fn an_integer_needs_a_catch_all() {
    let w = world();
    let pats = vec![int_lit(0, w.int, 0), int_lit(1, w.int, 1)];
    let out = check(&w, &pats, w.int, "Int", vec![0, 1]);
    assert_eq!(out.len(), 1);
    assert_eq!(out[0].message, "`Int` has a value no arm of this `match` covers: `_`");
}

#[test]
fn a_nullable_with_only_a_null_arm_reports_the_wildcard() {
    let w = world();
    let pats = vec![lit(Literal::Null, w.int_opt, 0)];
    let out = check(&w, &pats, w.int_opt, "Int?", vec![0]);
    assert_eq!(out.len(), 1);
    assert_eq!(out[0].message, "`Int?` has a value no arm of this `match` covers: `_`");
}

#[test]
fn an_arm_after_a_wildcard_is_unreachable() {
    let w = world();
    let pats = vec![wild(w.boolean, 0), lit(Literal::Bool(true), w.boolean, 1)];
    let out = check(&w, &pats, w.boolean, "Bool", vec![0, 1]);
    assert_eq!(out.len(), 1);
    assert_eq!(out[0].code.0, UNREACHABLE_ARM);
    assert_eq!(out[0].message, "no value reaches this arm");
    assert_eq!(out[0].labels[0].span, span(1));
    assert_eq!(out[0].labels[0].message, "every value this matches is matched above");
}

#[test]
fn a_repeated_literal_is_unreachable_and_a_binding_catches_the_rest() {
    let w = world();
    let pats = vec![int_lit(7, w.int, 0), int_lit(7, w.int, 1), bind(95, w.int, 2)];
    let out = check(&w, &pats, w.int, "Int", vec![0, 1, 2]);
    assert_eq!(out.len(), 1);
    assert_eq!(out[0].code.0, UNREACHABLE_ARM);
    assert_eq!(out[0].labels[0].span, span(1));
}

#[test]
fn a_suffix_does_not_make_another_value() {
    let w = world();
    let pats = vec![
        int_lit(3, w.int, 0),
        lit(Literal::Int { value: 3, suffix: Some(science::syntax::NumSuffix::I64) }, w.int, 1),
        wild(w.int, 2),
    ];
    let out = check(&w, &pats, w.int, "Int", vec![0, 1, 2]);
    assert_eq!(out.len(), 1);
    assert_eq!(out[0].labels[0].span, span(1));
}

#[test]
fn many_missing_variants_are_named_three_at_a_time() {
    let w = world();
    let pats = vec![variant(51, vec![], w.letter, 0)];
    let out = check(&w, &pats, w.letter, "Letter", vec![0]);
    assert_eq!(out.len(), 1);
    assert_eq!(
        out[0].message,
        "`Letter` has values no arm of this `match` covers: `B`, `C`, `D`, and 1 more"
    );
    assert!(out[0].notes[0].contains("write an arm for `B`"));
}

#[test]
fn a_record_witness_names_its_fields() {
    let w = world();
    let pats = vec![
        int_lit(0, w.int, 0),
        pat(PatKind::Record { def: Some(DefId(30)), fields: vec![(DefId(31), 0)] }, w.point, 1),
    ];
    let out = check(&w, &pats, w.point, "Point", vec![1]);
    assert_eq!(out.len(), 1);
    assert_eq!(out[0].message, "`Point` has a value no arm of this `match` covers: `Point(x: _, y: _)`");
}

#[test]
fn a_tuple_witness_is_the_missing_combination() {
    let w = world();
    let pats = vec![
        lit(Literal::Bool(true), w.boolean, 0),
        wild(w.boolean, 1),
        pat(PatKind::Tuple(vec![0, 1]), w.pair, 2),
        lit(Literal::Bool(false), w.boolean, 3),
        lit(Literal::Bool(true), w.boolean, 4),
        pat(PatKind::Tuple(vec![3, 4]), w.pair, 5),
    ];
    let out = check(&w, &pats, w.pair, "(Bool, Bool)", vec![2, 5]);
    assert_eq!(out.len(), 1);
    assert_eq!(out[0].message, "`(Bool, Bool)` has a value no arm of this `match` covers: `(false, false)`");
}

#[test]
fn alternatives_cover_what_each_covers() {
    let w = world();
    let pats = vec![
        lit(Literal::Bool(true), w.boolean, 0),
        lit(Literal::Bool(false), w.boolean, 1),
        pat(PatKind::Or(vec![0, 1]), w.boolean, 2),
        wild(w.boolean, 3),
    ];
    let out = check(&w, &pats, w.boolean, "Bool", vec![2, 3]);
    assert_eq!(out.len(), 1);
    assert_eq!(out[0].code.0, UNREACHABLE_ARM);
    assert_eq!(out[0].labels[0].span, span(3));
}

#[test]
fn never_needs_no_arm_and_unit_needs_one() {
    let w = world();
    assert!(check(&w, &[], w.never, "Never", vec![]).is_empty());
    let pats = vec![pat(PatKind::Unit, Ty::unit(), 0)];
    assert!(check(&w, &pats, Ty::unit(), "()", vec![0]).is_empty());
    let out = check(&w, &[], Ty::unit(), "()", vec![]);
    assert_eq!(out.len(), 1);
    assert_eq!(out[0].message, "`()` has a value no arm of this `match` covers: `_`");
}

#[test]
fn a_scrutinee_already_wrong_is_not_judged() {
    let w = world();
    let pats = vec![int_lit(0, w.int, 0)];
    assert!(check(&w, &pats, Ty::error(), "?", vec![0]).is_empty());
}

#[test]
fn an_arm_that_did_not_resolve_silences_the_match() {
    let w = world();
    let pats = vec![pat(PatKind::Variant { def: None, elems: vec![] }, w.shape, 0)];
    assert!(check(&w, &pats, w.shape, "Shape", vec![0]).is_empty());
    let pats = vec![pat(PatKind::Error, w.shape, 0)];
    assert!(check(&w, &pats, w.shape, "Shape", vec![0]).is_empty());
}

#[test]
fn a_scrutinee_naming_an_alias_is_not_judged() {
    let w = world();
    let mut types = Types::new();
    let figure = types.named(DefId(60), vec![]);
    let shape = types.named(DefId(20), vec![]);
    let mut reported = Vec::new();
    let aliases = Aliases::of(
        &[AliasDeclaration { def: DefId(60), params: vec![], body: shape }],
        &types,
        &w.defs,
        &mut reported,
    );
    assert!(reported.is_empty());
    let pats = vec![variant(21, vec![], figure, 0)];
    let m = MatchExpr { scrutinee_ty: figure, ty_text: "Figure".to_string(), span: span(900), arms: vec![0] };
    assert!(match_expr(&pats, &m, &w.defs, &w.decls, &types, &aliases).is_empty());
}

#[test]
fn report_appends_each_match_in_order() {
    let w = world();
    let pats = vec![
        wild(w.boolean, 0),
        lit(Literal::Bool(true), w.boolean, 1),
        int_lit(0, w.int, 2),
    ];
    let matches = vec![
        MatchExpr { scrutinee_ty: w.boolean, ty_text: "Bool".to_string(), span: span(900), arms: vec![0, 1] },
        MatchExpr { scrutinee_ty: w.int, ty_text: "Int".to_string(), span: span(901), arms: vec![2] },
    ];
    let mut diagnostics = vec![unreachable_arm(span(7))];
    report(&pats, &matches, &w.defs, &w.decls, &w.types, &Aliases::new(), &mut diagnostics);
    assert_eq!(diagnostics.len(), 3);
    assert_eq!(diagnostics[0].labels[0].span, span(7));
    assert_eq!(diagnostics[1].code.0, UNREACHABLE_ARM);
    assert_eq!(diagnostics[1].labels[0].span, span(1));
    assert_eq!(diagnostics[2].code.0, NON_EXHAUSTIVE_MATCH);
    assert_eq!(diagnostics[2].labels[0].span, span(901));
}

#[test]
fn the_message_counts_what_it_does_not_name() {
    let names: Vec<String> = ["A", "B", "C", "D", "E"].iter().map(|s| s.to_string()).collect();
    let d = not_exhaustive(span(3), "Letter", &names);
    assert_eq!(d.message, "`Letter` has values no arm of this `match` covers: `A`, `B`, `C`, and 2 more");
    let one = not_exhaustive(span(3), "Bool", &["false".to_string()]);
    assert_eq!(one.message, "`Bool` has a value no arm of this `match` covers: `false`");
    let three: Vec<String> = ["A", "B", "C"].iter().map(|s| s.to_string()).collect();
    let d = not_exhaustive(span(3), "Letter", &three);
    assert_eq!(d.message, "`Letter` has values no arm of this `match` covers: `A`, `B`, `C`");
}

#[test]
fn a_match_with_no_arms_on_an_inhabited_type_is_reported() {
    let w = world();
    for (ty, text) in [(w.boolean, "Bool"), (w.int, "Int"), (w.shape, "Shape")] {
        let out = check(&w, &[], ty, text, vec![]);
        assert_eq!(out.len(), 1);
        assert_eq!(out[0].code.0, NON_EXHAUSTIVE_MATCH);
    }
}

#[test]
fn literal_arms_report_each_repeat_in_order_then_the_wildcard() {
    let w = world();
    let pats = vec![
        int_lit(7, w.int, 0),
        int_lit(8, w.int, 1),
        int_lit(7, w.int, 2),
        int_lit(9, w.int, 3),
        int_lit(8, w.int, 4),
    ];
    let out = check(&w, &pats, w.int, "Int", vec![0, 1, 2, 3, 4]);
    assert_eq!(out.len(), 3);
    assert_eq!(out[0].code.0, UNREACHABLE_ARM);
    assert_eq!(out[0].labels[0].span, span(2));
    assert_eq!(out[1].code.0, UNREACHABLE_ARM);
    assert_eq!(out[1].labels[0].span, span(4));
    assert_eq!(out[2].code.0, NON_EXHAUSTIVE_MATCH);
    assert_eq!(out[2].message, "`Int` has a value no arm of this `match` covers: `_`");
}

#[test]
fn literal_arms_ending_in_a_catch_all_report_only_the_repeats() {
    let w = world();
    let pats = vec![int_lit(1, w.int, 0), wild(w.int, 1), int_lit(2, w.int, 2), int_lit(1, w.int, 3)];
    let out = check(&w, &pats, w.int, "Int", vec![0, 1, 2, 3]);
    assert_eq!(out.len(), 2);
    assert_eq!(out[0].labels[0].span, span(2));
    assert_eq!(out[1].labels[0].span, span(3));
}

#[test]
fn unit_variant_arms_report_repeats_and_a_dead_catch_all() {
    let w = world();
    let pats = vec![
        variant(51, vec![], w.letter, 0),
        variant(52, vec![], w.letter, 1),
        variant(51, vec![], w.letter, 2),
        variant(53, vec![], w.letter, 3),
        variant(54, vec![], w.letter, 4),
        variant(55, vec![], w.letter, 5),
        wild(w.letter, 6),
    ];
    let out = check(&w, &pats, w.letter, "Letter", vec![0, 1, 2, 3, 4, 5, 6]);
    assert_eq!(out.len(), 2);
    assert_eq!(out[0].code.0, UNREACHABLE_ARM);
    assert_eq!(out[0].labels[0].span, span(2));
    assert_eq!(out[1].code.0, UNREACHABLE_ARM);
    assert_eq!(out[1].labels[0].span, span(6));
}

#[test]
fn a_catch_all_after_some_unit_variants_is_live_and_covers_the_rest() {
    let w = world();
    let pats = vec![variant(51, vec![], w.letter, 0), wild(w.letter, 1)];
    assert!(check(&w, &pats, w.letter, "Letter", vec![0, 1]).is_empty());
}

#[test]
fn a_bool_arm_repeated_leaves_the_other_value_missing() {
    let w = world();
    let pats = vec![lit(Literal::Bool(true), w.boolean, 0), lit(Literal::Bool(true), w.boolean, 1)];
    let out = check(&w, &pats, w.boolean, "Bool", vec![0, 1]);
    assert_eq!(out.len(), 2);
    assert_eq!(out[0].code.0, UNREACHABLE_ARM);
    assert_eq!(out[0].labels[0].span, span(1));
    assert_eq!(out[1].code.0, NON_EXHAUSTIVE_MATCH);
    assert_eq!(out[1].message, "`Bool` has a value no arm of this `match` covers: `false`");
}
