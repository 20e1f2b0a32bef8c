use science::alias::{AliasDeclaration, Aliases};
use science::assign::{DefKind, Definition};
use science::codes::CYCLIC_ALIAS;
use science::infer::Span;
use science::ty::{DefId, GenericArg, Ty, Types};

fn alias_def(id: u32, name: &str) -> Definition {
    Definition {
        id: DefId(id),
        kind: DefKind::Alias,
        name: name.to_string(),
        builtin: false,
        span: Span { start: id as usize * 10, end: id as usize * 10 + 4 },
    }
}

fn declare(def: u32, body: Ty) -> AliasDeclaration {
    AliasDeclaration { def: DefId(def), params: vec![], body }
}

#[test]
fn two_aliases_that_expand_into_each_other_are_one_report() {
    let defs = vec![alias_def(1, "A"), alias_def(2, "B")];
    let mut types = Types::new();
    let a = types.named(DefId(1), vec![]);
    let b = types.named(DefId(2), vec![]);
    let mut diagnostics = Vec::new();
    let aliases = Aliases::of(&[declare(1, b), declare(2, a)], &types, &defs, &mut diagnostics);
    assert_eq!(diagnostics.len(), 1);
    let report = &diagnostics[0];
    assert_eq!(report.code.0, CYCLIC_ALIAS);
    assert_eq!(report.message, "this type alias expands into itself");
    assert_eq!(report.labels.len(), 2);
    assert!(report.labels[0].primary);
    assert_eq!(report.labels[0].span, defs[0].span);
    assert_eq!(report.labels[0].message, "expanding this alias reaches it again");
    assert!(!report.labels[1].primary);
    assert_eq!(report.labels[1].span, defs[1].span);
    assert_eq!(report.labels[1].message, "and through this one");
    assert_eq!(report.notes[0], "`A`, which expands into `B`, which expands into `A`");
    assert!(report.notes[1].starts_with("an alias is another name for the type on its right"));
    assert_eq!(aliases.body(DefId(1)), Some(Ty::error()));
    assert_eq!(aliases.body(DefId(2)), Some(Ty::error()));
}

#[test]
fn an_alias_that_contains_itself_is_a_cycle_of_one() {
    let defs = vec![alias_def(3, "Node")];
    let mut types = Types::new();
    let node = types.named(DefId(3), vec![]);
    let maybe = types.nullable(node);
    let mut diagnostics = Vec::new();
    let aliases = Aliases::of(&[declare(3, maybe)], &types, &defs, &mut diagnostics);
    assert_eq!(diagnostics.len(), 1);
    assert_eq!(diagnostics[0].labels.len(), 1);
    assert_eq!(diagnostics[0].notes[0], "`Node`, which expands into `Node`");
    assert_eq!(aliases.body(DefId(3)), Some(Ty::error()));
}

#[test]
fn an_alias_that_only_reaches_a_cycle_keeps_its_body() {
    let defs = vec![alias_def(1, "C"), alias_def(2, "A"), alias_def(3, "B")];
    let mut types = Types::new();
    let a = types.named(DefId(2), vec![]);
    let b = types.named(DefId(3), vec![]);
    let pair = types.tuple(vec![a, a]);
    let mut diagnostics = Vec::new();
    let aliases = Aliases::of(
        &[declare(1, pair), declare(2, b), declare(3, a)],
        &types,
        &defs,
        &mut diagnostics,
    );
    assert_eq!(diagnostics.len(), 1);
    assert_eq!(diagnostics[0].notes[0], "`A`, which expands into `B`, which expands into `A`");
    assert_eq!(diagnostics[0].labels[0].span, defs[1].span);
    assert_eq!(aliases.body(DefId(1)), Some(pair));
    assert_eq!(aliases.body(DefId(2)), Some(Ty::error()));
    assert_eq!(aliases.body(DefId(3)), Some(Ty::error()));
}

#[test]
fn a_chain_of_aliases_without_a_cycle_is_left_alone() {
    // `type Embedding is Array of F32`, `type Pair is (Embedding, Embedding)`.
    let defs = vec![alias_def(5, "Embedding"), alias_def(6, "Pair")];
    let mut types = Types::new();
    let f32 = types.named(DefId(40), vec![]);
    let array = types.named(DefId(41), vec![GenericArg::Type(f32)]);
    let embedding = types.named(DefId(5), vec![]);
    let pair = types.tuple(vec![embedding, embedding]);
    let mut diagnostics = Vec::new();
    let aliases =
        Aliases::of(&[declare(5, array), declare(6, pair)], &types, &defs, &mut diagnostics);
    assert!(diagnostics.is_empty());
    assert_eq!(aliases.body(DefId(5)), Some(array));
    assert_eq!(aliases.body(DefId(6)), Some(pair));
    assert!(aliases.is_alias(DefId(5)));
    assert!(!aliases.is_alias(DefId(41)));
    assert_eq!(aliases.len(), 2);
    assert!(!aliases.is_empty());
}

#[test]
fn a_table_with_no_aliases_is_empty() {
    let aliases = Aliases::new();
    assert!(aliases.is_empty());
    assert_eq!(aliases.len(), 0);
    assert_eq!(aliases.body(DefId(1)), None);
}

#[test]
fn two_independent_cycles_are_reported_in_id_order() {
    let defs = vec![alias_def(7, "P"), alias_def(8, "Q"), alias_def(9, "R")];
    let mut types = Types::new();
    let p = types.named(DefId(7), vec![]);
    let r = types.named(DefId(9), vec![]);
    let mut diagnostics = Vec::new();
    // Declared out of order; `R` is its own cycle and `P` is its own cycle.
    let aliases = Aliases::of(
        &[declare(9, r), declare(8, p), declare(7, p)],
        &types,
        &defs,
        &mut diagnostics,
    );
    assert_eq!(diagnostics.len(), 2);
    assert_eq!(diagnostics[0].notes[0], "`P`, which expands into `P`");
    assert_eq!(diagnostics[1].notes[0], "`R`, which expands into `R`");
    assert_eq!(aliases.body(DefId(8)), Some(p));
}

#[test]
fn an_alias_mentioned_twice_in_its_own_body_is_reported_per_mention() {
    let defs = vec![alias_def(4, "Twice")];
    let mut types = Types::new();
    let int = types.named(DefId(40), vec![]);
    let boolean = types.named(DefId(41), vec![]);
    let with_int = types.named(DefId(4), vec![GenericArg::Type(int)]);
    let with_bool = types.named(DefId(4), vec![GenericArg::Type(boolean)]);
    let body = types.tuple(vec![with_int, with_bool]);
    let mut diagnostics = Vec::new();
    let aliases = Aliases::of(&[declare(4, body)], &types, &defs, &mut diagnostics);
    assert_eq!(diagnostics.len(), 2);
    assert_eq!(aliases.body(DefId(4)), Some(Ty::error()));
}
