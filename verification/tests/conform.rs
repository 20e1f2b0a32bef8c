use science::assign::{DefKind, Definition};
use science::codes::{MISMATCHED_IMPLEMENTATION, NOT_AN_INTERFACE_METHOD, UNIMPLEMENTED_INTERFACE_METHOD};
use science::conform::{
    block_conforms, conformance, declared_at, disagreement, mismatched, not_declared, render_recv, render_signature, unimplemented,
    Disagreement,
    Finding, SelfKind, Shape,
};
use science::infer::Span;
use science::items::{Declarations, Prelude, Signature};
use science::ty::{DefId, GenericArg, Ty, TyKind, Types};

fn at(n: usize) -> Span {
    Span { start: n, end: n + 1 }
}

fn defs() -> Vec<Definition> {
    let def = |id: u32, kind: DefKind, name: &str, builtin: bool| Definition {
        id: DefId(id),
        kind,
        name: name.to_string(),
        builtin,
        span: at(id as usize),
    };
    vec![
        def(1, DefKind::Interface, "Summarize", false),
        def(2, DefKind::Fn, "summary", false),
        def(3, DefKind::Fn, "title", false),
        def(4, DefKind::Interface, "Display", true),
        def(5, DefKind::Fn, "render", true),
    ]
}

fn signature(def: u32, has_body: bool) -> Signature {
    Signature {
        def: DefId(def),
        generics: vec![],
        bounds: vec![],
        self_param: None,
        params: vec![],
        ret: Ty::unit(),
        owner: None,
        has_body,
        span: at(def as usize),
    }
}

fn shape(generics: usize, recv: Option<SelfKind>, params: Vec<Ty>, ret: Ty) -> Shape {
    Shape {
        generics: (0..generics as u32).map(|i| DefId(200 + i)).collect(),
        recv,
        params: params.into_iter().enumerate().map(|(i, ty)| (DefId(300 + i as u32), ty)).collect(),
        ret,
    }
}

#[test]
fn receivers_are_written_as_the_language_writes_them() {
    assert_eq!(render_recv(Some(SelfKind::Shared)), Some("self"));
    assert_eq!(render_recv(Some(SelfKind::Mutable)), Some("mutable self"));
    assert_eq!(render_recv(Some(SelfKind::Value)), Some("self: Self"));
    assert_eq!(render_recv(None), None);
}

#[test]
fn the_first_disagreement_is_the_one_reported() {
    let mut types = Types::new();
    let int = types.named(DefId(90), vec![]);
    let float = types.named(DefId(91), vec![]);
    let shared = Some(SelfKind::Shared);
    let want = shape(0, shared, vec![int, int], int);
    assert_eq!(disagreement(&types, &want, &shape(1, shared, vec![int, int], int)), Some(Disagreement::Generics));
    assert_eq!(
        disagreement(&types, &want, &shape(0, Some(SelfKind::Mutable), vec![int, int], int)),
        Some(Disagreement::Receiver)
    );
    assert_eq!(disagreement(&types, &want, &shape(0, shared, vec![int], int)), Some(Disagreement::Arity));
    assert_eq!(disagreement(&types, &want, &shape(0, shared, vec![int, float], float)), Some(Disagreement::Param(1)));
    assert_eq!(disagreement(&types, &want, &shape(0, shared, vec![int, int], float)), Some(Disagreement::Return));
    assert_eq!(disagreement(&types, &want, &shape(0, shared, vec![int, int], int)), None);
    assert!(!want.is_erroneous(&types));
    assert!(shape(0, None, vec![Ty::error()], int).is_erroneous(&types));
}

#[test]
fn a_position_the_block_did_not_answer_is_not_compared() {
    let mut types = Types::new();
    let float = types.named(DefId(91), vec![]);
    let assoc = types.intern(TyKind::SelfAssoc { assoc: DefId(7) });
    let want = shape(0, None, vec![assoc], assoc);
    assert_eq!(disagreement(&types, &want, &shape(0, None, vec![float], float)), None);
}

#[test]
fn each_declared_method_is_missing_compared_or_defaulted() {
    let mut decls = Declarations::new(Prelude::empty());
    decls.declare_fn(signature(2, false));
    decls.declare_fn(signature(3, true));
    decls.declare_fn(signature(6, true));
    decls.declare_fn(signature(7, true));
    decls.declare_fn(signature(8, true));
    let declared = vec![("summary".to_string(), DefId(2)), ("title".to_string(), DefId(3))];
    // Nothing written: the method without a body is missing, the default is not.
    assert_eq!(conformance(&decls, &declared, &[], false), vec![Finding::Unimplemented(DefId(2))]);
    // Written twice, then once more under a name the interface lacks.
    let written = vec![
        ("summary".to_string(), DefId(6)),
        ("summary".to_string(), DefId(7)),
        ("extra".to_string(), DefId(8)),
    ];
    assert_eq!(
        conformance(&decls, &declared, &written, false),
        vec![Finding::Compare { declared: DefId(2), written: DefId(7) }, Finding::NotDeclared(DefId(8))]
    );
    // The prelude's interfaces are not held to what they leave out.
    assert_eq!(
        conformance(&decls, &declared, &written, true),
        vec![Finding::Compare { declared: DefId(2), written: DefId(7) }]
    );
}

#[test]
fn a_missing_method_says_where_it_was_declared_and_how_to_write_it() {
    let defs = defs();
    let d = unimplemented(&defs, at(40), "summary", DefId(1), DefId(2), Some("def summary(self) -> String"));
    assert_eq!(d.code.0, UNIMPLEMENTED_INTERFACE_METHOD);
    assert_eq!(d.message, "this block does not implement `Summarize`'s method `summary`");
    assert_eq!(d.labels.len(), 2);
    assert_eq!(d.labels[0].message, "`summary` is missing from this implementation");
    assert_eq!(d.labels[1].span, at(2));
    assert!(!d.labels[1].primary);
    assert_eq!(d.labels[1].message, "`summary` is declared here, with no body");
    assert_eq!(
        d.notes,
        vec![
            "an interface method with no body is required of every implementation; one with a body is a default the block may leave out".to_string(),
            "write it in this block: `def summary(self) -> String:`".to_string(),
        ]
    );
    let builtin = unimplemented(&defs, at(40), "render", DefId(4), DefId(5), None);
    assert_eq!(builtin.labels.len(), 1);
    assert_eq!(builtin.notes.len(), 1);
    assert!(declared_at(&defs, DefId(5), "x".to_string()).is_none());
    assert_eq!(declared_at(&defs, DefId(3), "x".to_string()).map(|l| l.span), Some(at(3)));
}

#[test]
fn an_undeclared_method_points_at_the_inherent_block() {
    let d = not_declared(&defs(), at(9), "extra", DefId(1), "Doc");
    assert_eq!(d.code.0, NOT_AN_INTERFACE_METHOD);
    assert_eq!(d.message, "`Summarize` declares no method `extra`");
    assert_eq!(d.labels[0].message, "`extra` is not one of `Summarize`'s methods");
    assert_eq!(d.notes[1], "move it to an inherent block: `Doc has:`");
}

#[test]
fn a_mismatch_names_the_first_disagreement() {
    let defs = defs();
    let mut types = Types::new();
    let int = types.named(DefId(90), vec![]);
    let want = shape(0, Some(SelfKind::Shared), vec![int], int);
    let got = shape(1, None, vec![int, int], int);
    let label = |d: Disagreement, got: &Shape| {
        mismatched(&defs, at(9), "summary", DefId(1), DefId(2), &want, got, d, "Int", "F64", None).labels[0]
            .message
            .clone()
    };
    assert_eq!(label(Disagreement::Generics, &got), "this takes 1 type parameter(s); `Summarize` declares 0");
    assert_eq!(
        label(Disagreement::Receiver, &got),
        "this takes `no receiver`; `Summarize` declares `self`"
    );
    assert_eq!(label(Disagreement::Arity, &got), "this takes 2 parameter(s); `Summarize` declares 1");
    assert_eq!(label(Disagreement::Param(0), &got), "parameter 1 is `F64`; `Summarize` declares `Int`");
    assert_eq!(label(Disagreement::Return, &got), "this returns `F64`; `Summarize` declares `Int`");
    let d = mismatched(
        &defs,
        at(9),
        "summary",
        DefId(1),
        DefId(2),
        &want,
        &got,
        Disagreement::Return,
        "Int",
        "F64",
        Some("def summary(self, n: Int) -> Int"),
    );
    assert_eq!(d.code.0, MISMATCHED_IMPLEMENTATION);
    assert_eq!(d.message, "`summary` does not have the signature `Summarize` declares for it");
    assert_eq!(d.labels[1].message, "`summary` is declared here");
    assert_eq!(d.notes[1], "write the declared signature: `def summary(self, n: Int) -> Int:`");
}

#[test]
fn a_signature_is_written_as_its_header() {
    let mut defs = defs();
    defs.push(Definition { id: DefId(20), kind: DefKind::Param, name: "T".to_string(), builtin: false, span: at(20) });
    defs.push(Definition { id: DefId(21), kind: DefKind::Param, name: "U".to_string(), builtin: false, span: at(21) });
    defs.push(Definition { id: DefId(30), kind: DefKind::Local, name: "at".to_string(), builtin: false, span: at(30) });
    defs.push(Definition { id: DefId(31), kind: DefKind::Local, name: "n".to_string(), builtin: false, span: at(31) });
    let mut types = Types::new();
    let int = types.named(DefId(90), vec![]);
    let one = Shape { generics: vec![DefId(20)], recv: Some(SelfKind::Shared), params: vec![(DefId(30), int)], ret: int };
    assert_eq!(
        render_signature(&defs, "index", &one, &["Int".to_string()], "borrowed T"),
        Some("def index of T(self, at: Int) -> borrowed T".to_string())
    );
    let two = Shape {
        generics: vec![DefId(20), DefId(21)],
        recv: None,
        params: vec![(DefId(30), int), (DefId(31), int)],
        ret: Ty::unit(),
    };
    assert_eq!(
        render_signature(&defs, "pair", &two, &["Int".to_string(), "U".to_string()], "()"),
        Some("def pair of (T, U)(at: Int, n: U)".to_string())
    );
    assert_eq!(render_signature(&defs, "pair", &two, &["{unknown}".to_string(), "U".to_string()], "()"), None);
    let bare = Shape { generics: vec![], recv: Some(SelfKind::Mutable), params: vec![], ret: Ty::unit() };
    assert_eq!(render_signature(&defs, "reset", &bare, &[], "()"), Some("def reset(mutable self)".to_string()));
}

#[test]
fn a_block_is_held_to_its_interface_only_when_it_can_be() {
    let defs = defs();
    let mut types = Types::new();
    let summarize_self = types.self_type(DefId(1));
    let report = types.named(DefId(60), vec![]);
    let broken = types.named(DefId(61), vec![GenericArg::Type(Ty::error())]);
    let mut decls = Declarations::new(Prelude::empty());
    decls.declare_fn(signature(2, false));
    decls.declare_fn(signature(3, true));
    decls.declare_interface(DefId(1), summarize_self, vec![]);
    decls.declare_block(DefId(70), report, vec![], Some((DefId(1), vec![])));
    decls.declare_block(DefId(71), broken, vec![], Some((DefId(1), vec![])));
    let declared = vec![("summary".to_string(), DefId(2)), ("title".to_string(), DefId(3))];
    let missing = vec![Finding::Unimplemented(DefId(2))];
    // A block naming `Summarize` is held to it.
    assert_eq!(block_conforms(&decls, &defs, &types, DefId(70), Some(DefId(1)), &declared, &[]), missing);
    // `Report has:` names no interface and promises nothing.
    assert!(block_conforms(&decls, &defs, &types, DefId(70), None, &declared, &[]).is_empty());
    // A bound naming a method, not an interface, was reported elsewhere.
    assert!(block_conforms(&decls, &defs, &types, DefId(70), Some(DefId(2)), &declared, &[]).is_empty());
    // No `Self` type, or one already wrong: an earlier pass reported.
    assert!(block_conforms(&decls, &defs, &types, DefId(72), Some(DefId(1)), &declared, &[]).is_empty());
    assert!(block_conforms(&decls, &defs, &types, DefId(71), Some(DefId(1)), &declared, &[]).is_empty());
}

#[test]
fn a_block_whose_interface_argument_did_not_lower_is_not_judged() {
    let defs = defs();
    let mut types = Types::new();
    let summarize_self = types.self_type(DefId(1));
    let report = types.named(DefId(60), vec![]);
    let mut decls = Declarations::new(Prelude::empty());
    decls.declare_fn(signature(2, false));
    decls.declare_interface(DefId(1), summarize_self, vec![DefId(80)]);
    decls.declare_block(DefId(70), report, vec![], Some((DefId(1), vec![GenericArg::Error])));
    decls.declare_block(DefId(73), report, vec![], Some((DefId(1), vec![GenericArg::Type(report)])));
    let declared = vec![("summary".to_string(), DefId(2))];
    assert!(block_conforms(&decls, &defs, &types, DefId(70), Some(DefId(1)), &declared, &[]).is_empty());
    assert_eq!(
        block_conforms(&decls, &defs, &types, DefId(73), Some(DefId(1)), &declared, &[]),
        vec![Finding::Unimplemented(DefId(2))]
    );
}
