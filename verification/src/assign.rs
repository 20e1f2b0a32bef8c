//! Assignability: whether a value of one type may be put in a slot of
//! another, and what has to happen to it if so. Structural equality, plus
//! the widening into `T?`, the boxing of a concrete error into `any Error`
//! at a `return` or an argument, the unsizing of a borrow or a `Box` into an
//! interface object, and the copy out of a shared borrow of a `Copy` type.

use vstd::prelude::*;

use crate::infer::Span;
use crate::ty::{arg_types, mentions_error, operands, ArgView, DefId, KindView, Ty, TyKind, Types};

verus! {

/// Where a value is being put.
#[derive(Debug, Clone, Copy, PartialEq, Eq, Structural, Hash)]
pub enum Site {
    /// The operand of a `return`, or the trailing expression of a body.
    Return,
    /// An argument at a call.
    Argument,
    /// Everywhere else.
    Elsewhere,
}

impl Site {
    /// Whether boxing applies here: at a `return` and at an argument.
    pub open spec fn spec_boxes(self) -> bool {
        self == Site::Return || self == Site::Argument
    }

    /// Whether boxing applies here.
    pub fn boxes(self) -> (r: bool)
        ensures
            r == self.spec_boxes(),
    {
        match self {
            Site::Return | Site::Argument => true,
            Site::Elsewhere => false,
        }
    }
}

/// What has to happen for the value to fit the slot.
#[derive(Debug, Clone, Copy, PartialEq, Eq, Structural, Hash)]
pub enum Coercion {
    /// The types already agree.
    Identity,
    /// `T` into `T?`.
    Widen,
    /// A concrete error type into `any Error`. This one allocates.
    Box,
    /// A concrete error type into `(any Error)?`.
    BoxThenWiden,
    /// `borrowed C` into `borrowed any I`, at the same mutability.
    Unsize,
    /// `Box of C` into `Box of any I`.
    UnsizeInBox,
    /// `borrowed T` into `T`, where `T` implements `Copy`.
    Copy,
    /// `borrowed T` into `T?`, where `T` implements `Copy`.
    CopyThenWiden,
    /// `(borrowed T)?` into `T?`, where `T` implements `Copy`.
    CopyWhenPresent,
}

/// What kind of thing a definition is.
#[derive(Debug, Clone, Copy, PartialEq, Eq, Structural, Hash)]
pub enum DefKind {
    Alias,
    AssocType,
    Choice,
    Const,
    ExternFn,
    Fn,
    Interface,
    Local,
    Param,
    Primitive,
    Record,
    SelfParam,
    Union,
    Variant,
}

/// One entry of the definition table: what this relation reads of it.
#[derive(Debug, Clone)]
pub struct Definition {
    pub id: DefId,
    pub kind: DefKind,
    pub name: String,
    /// Whether the prelude declares it.
    pub builtin: bool,
    /// Where it is defined.
    pub span: Span,
}

/// The first builtin definition of the given kind and name, if any.
pub open spec fn first_builtin(defs: Seq<Definition>, kind: DefKind, name: Seq<char>) -> Option<DefId>
    decreases defs.len(),
{
    if defs.len() == 0 {
        None
    } else if defs[0].kind == kind && defs[0].name@ == name && defs[0].builtin {
        Some(defs[0].id)
    } else {
        first_builtin(defs.drop_first(), kind, name)
    }
}

/// The three definitions this relation has to know by name: the prelude's
/// `Error` and `Copy` interfaces and its `Box`.
#[derive(Debug, Clone, Copy, Default)]
pub struct Coercions {
    pub error: Option<DefId>,
    pub copy: Option<DefId>,
    pub boxed: Option<DefId>,
}

/// What a `Box of T` holds, when `ty` is one: a named type at the box's
/// definition with exactly one argument, which is a type.
pub open spec fn box_element_of(kinds: Seq<KindView>, boxed: Option<DefId>, ty: Ty) -> Option<Ty> {
    match boxed {
        None => None,
        Some(b) => match kinds[ty.0 as int] {
            KindView::Named { def, args } => if def == b && args.len() == 1 {
                match args[0] {
                    ArgView::Type(t) => Some(t),
                    _ => None,
                }
            } else {
                None
            },
            _ => None,
        },
    }
}

/// Whether `ty` is exactly `any Error`: an object at that interface with no
/// arguments.
pub open spec fn any_error(kinds: Seq<KindView>, error: Option<DefId>, ty: Ty) -> bool {
    match error {
        None => false,
        Some(e) => match kinds[ty.0 as int] {
            KindView::Object { interface, args } => interface == e && args.len() == 0,
            _ => false,
        },
    }
}

impl Coercions {
    /// No boxing and no copying out: a table with no prelude.
    pub fn new() -> (c: Coercions)
        ensures
            c.error is None && c.copy is None && c.boxed is None,
    {
        Coercions { error: None, copy: None, boxed: None }
    }

    /// Finds the prelude's `Error` and `Copy` interfaces and its `Box`.
    pub fn of(defs: &[Definition]) -> (c: Coercions)
        ensures
            c.error == first_builtin(defs@, DefKind::Interface, "Error"@),
            c.copy == first_builtin(defs@, DefKind::Interface, "Copy"@),
            c.boxed == first_builtin(defs@, DefKind::Primitive, "Box"@),
    {
        Coercions {
            error: find_builtin(defs, DefKind::Interface, "Error"),
            copy: find_builtin(defs, DefKind::Interface, "Copy"),
            boxed: find_builtin(defs, DefKind::Primitive, "Box"),
        }
    }

    /// The interface `any Error` names, when there is one.
    pub fn error_interface(self) -> (d: Option<DefId>)
        ensures
            d == self.error,
    {
        self.error
    }

    /// The interface the copy rule is conditioned on, when there is one.
    pub fn copy_interface(self) -> (d: Option<DefId>)
        ensures
            d == self.copy,
    {
        self.copy
    }

    /// The prelude's `Box`, when there is one.
    pub fn box_type(self) -> (d: Option<DefId>)
        ensures
            d == self.boxed,
    {
        self.boxed
    }

    /// What a `Box of T` holds, when `ty` is one.
    pub fn box_element(self, types: &Types, ty: Ty) -> (r: Option<Ty>)
        requires
            types.wf(),
            types.valid(ty),
        ensures
            r == box_element_of(types@, self.boxed, ty),
            r matches Some(t) ==> t.0 < ty.0,
    {
        let boxed = match self.boxed {
            Some(b) => b,
            None => return None,
        };
        proof {
            assert(crate::ty::kind_below(types@[ty.0 as int], ty.0 as int));
        }
        match types.kind(ty) {
            TyKind::Named { def, args } => {
                if *def != boxed || args.len() != 1 {
                    return None;
                }
                let r = args[0].as_type();
                proof {
                    if let Some(t) = r {
                        let av = crate::ty::args_view(args@);
                        assert(operands(types@[ty.0 as int]) == arg_types(av));
                        assert forall|k: int| 0 <= k < arg_types(av).len() implies (#[trigger] arg_types(
                            av,
                        )[k]).0 < ty.0 by {
                            assert(operands(types@[ty.0 as int])[k] == arg_types(av)[k]);
                        }
                        crate::ty::lemma_arg_type_valid(av, 0, ty.0 as int);
                    }
                }
                r
            },
            _ => None,
        }
    }

    /// Whether this type is exactly `any Error`.
    pub fn is_any_error(self, types: &Types, ty: Ty) -> (r: bool)
        requires
            types.wf(),
            types.valid(ty),
        ensures
            r == any_error(types@, self.error, ty),
    {
        let error = match self.error {
            Some(e) => e,
            None => return false,
        };
        match types.kind(ty) {
            TyKind::Object { interface, args } => *interface == error && args.len() == 0,
            _ => false,
        }
    }
}

/// The first builtin definition of the given kind and name.
fn find_builtin(defs: &[Definition], kind: DefKind, name: &str) -> (r: Option<DefId>)
    ensures
        r == first_builtin(defs@, kind, name@),
{
    let mut i: usize = 0;
    assert(defs@.skip(0) =~= defs@);
    while i < defs.len()
        invariant
            i <= defs@.len(),
            first_builtin(defs@.skip(i as int), kind, name@) == first_builtin(defs@, kind, name@),
        decreases defs@.len() - i,
    {
        let d = &defs[i];
        proof {
            assert(defs@.skip(i as int)[0] == defs@[i as int]);
            assert(defs@.skip(i as int).drop_first() =~= defs@.skip(i + 1));
        }
        if d.kind == kind && crate::text::str_eq(d.name.as_str(), name) && d.builtin {
            return Some(d.id);
        }
        i = i + 1;
    }
    assert(defs@.skip(i as int) =~= Seq::<Definition>::empty());
    None
}

/// The questions about implementations that two of the rules ask: whether a
/// type implements an interface, and whether a type has a declared
/// implementation of one.
pub trait ImplementationIndex {
    /// Whether `ty` implements `interface`.
    spec fn spec_implements(&self, types: Seq<KindView>, ty: Ty, interface: DefId) -> bool;

    /// Whether a block declares that `ty` implements `interface`.
    spec fn spec_declares(&self, types: Seq<KindView>, ty: Ty, interface: DefId) -> bool;

    /// Whether `ty` implements `interface`.
    fn implements(&self, types: &Types, ty: Ty, interface: DefId) -> (r: bool)
        requires
            types.wf(),
            types.valid(ty),
        ensures
            r == self.spec_implements(types@, ty, interface),
    ;

    /// Whether a block declares that `ty` implements `interface`.
    fn declares(&self, types: &Types, ty: Ty, interface: DefId) -> (r: bool)
        requires
            types.wf(),
            types.valid(ty),
        ensures
            r == self.spec_declares(types@, ty, interface),
    ;
}

/// The definition a type is headed by: a named type's, a parameter's, or the
/// owner of a `Self`.
pub open spec fn head_of(kinds: Seq<KindView>, ty: Ty) -> Option<DefId> {
    match kinds[ty.0 as int] {
        KindView::Named { def, .. } => Some(def),
        KindView::Param { def } => Some(def),
        KindView::SelfType { owner } => Some(owner),
        _ => None,
    }
}

/// An index of the implementations a crate declares, by the definition at
/// the head of the implementing type. An interface object implements its own
/// interface without a declaration, which is why `declares` is the narrower
/// of the two.
#[derive(Debug, Clone)]
pub struct DeclaredImplementations {
    /// `(head, interface)`: a block `head implements interface`.
    pub blocks: Vec<(DefId, DefId)>,
}

impl ImplementationIndex for DeclaredImplementations {
    open spec fn spec_declares(&self, types: Seq<KindView>, ty: Ty, interface: DefId) -> bool {
        match head_of(types, ty) {
            Some(h) => self.blocks@.contains((h, interface)),
            None => false,
        }
    }

    open spec fn spec_implements(&self, types: Seq<KindView>, ty: Ty, interface: DefId) -> bool {
        self.spec_declares(types, ty, interface) || (types[ty.0 as int] matches KindView::Object {
            interface: i,
            ..
        } && i == interface)
    }

    fn implements(&self, types: &Types, ty: Ty, interface: DefId) -> (r: bool) {
        if let TyKind::Object { interface: i, .. } = types.kind(ty) {
            if *i == interface {
                return true;
            }
        }
        self.declares(types, ty, interface)
    }

    fn declares(&self, types: &Types, ty: Ty, interface: DefId) -> (r: bool) {
        let head = match types.kind(ty) {
            TyKind::Named { def, .. } => *def,
            TyKind::Param { def } => *def,
            TyKind::SelfType { owner } => *owner,
            _ => return false,
        };
        let mut i: usize = 0;
        while i < self.blocks.len()
            invariant
                i <= self.blocks@.len(),
                head_of(types@, ty) == Some(head),
                forall|k: int| 0 <= k < i ==> self.blocks@[k] != (head, interface),
            decreases self.blocks@.len() - i,
        {
            let (h, f) = self.blocks[i];
            if h == head && f == interface {
                assert(self.blocks@[i as int] == (head, interface));
                return true;
            }
            i = i + 1;
        }
        false
    }
}

/// Whether a type is one of the three shapes the structural rules refuse: a
/// nullable, a borrow, or an interface object.
pub open spec fn refused_shape(kinds: Seq<KindView>, ty: Ty) -> bool {
    let k = kinds[ty.0 as int];
    k is Nullable || k is Borrowed || k is Object
}

/// The copy rule: `source` is a shared borrow of a type structurally equal to
/// `target`, which has a shape that could be `Copy` and a declared `Copy`.
pub open spec fn copies_spec<M: ImplementationIndex>(
    kinds: Seq<KindView>,
    methods: &M,
    coercions: Coercions,
    source: Ty,
    target: Ty,
) -> bool {
    match coercions.copy {
        None => false,
        Some(copy) => match kinds[source.0 as int] {
            KindView::Borrowed { mutable, inner } => !mutable && compatible_spec(kinds, inner, target)
                && !refused_shape(kinds, inner) && methods.spec_declares(kinds, inner, copy),
            _ => false,
        },
    }
}

/// The boxing rule's two halves: a shape that could be a concrete error type,
/// and an implementation of `Error`.
pub open spec fn may_box_spec<M: ImplementationIndex>(
    kinds: Seq<KindView>,
    methods: &M,
    coercions: Coercions,
    source: Ty,
) -> bool {
    match coercions.error {
        None => false,
        Some(error) => !refused_shape(kinds, source) && methods.spec_implements(kinds, source, error),
    }
}

/// Structural equality, with a type that mentions the error type agreeing with
/// whatever it meets.
pub open spec fn compatible_spec(kinds: Seq<KindView>, a: Ty, b: Ty) -> bool {
    a == b || mentions_error(kinds, a.0 as int) || mentions_error(kinds, b.0 as int)
}

/// Whether one rule lets a `source` value into a `target` slot at `site`.
///
/// - `Identity`: the two are compatible.
/// - Into a nullable `T?` slot: `Widen`, the source is compatible with `T`;
///   `CopyWhenPresent`, the source is `U?` and a `U` copies into `T`;
///   `CopyThenWiden`, the source copies into `T`; `BoxThenWiden`, at a site
///   that boxes, `T` is `any Error` and the source may be boxed.
/// - Into a `borrowed any I` slot: `Unsize`, the source is a borrow of the
///   same mutability of a type that implements `I` and is not itself a
///   nullable, borrow or object.
/// - Into any other slot: `UnsizeInBox`, `Box of C` into `Box of any I`;
///   `Box`, at a site that boxes, the slot is `any Error` and the source may
///   be boxed; `Copy`, the source copies into the slot.
pub open spec fn rule_applies<M: ImplementationIndex>(
    rule: Coercion,
    kinds: Seq<KindView>,
    methods: &M,
    coercions: Coercions,
    site: Site,
    source: Ty,
    target: Ty,
) -> bool {
    let t = kinds[target.0 as int];
    let s = kinds[source.0 as int];
    match rule {
        Coercion::Identity => compatible_spec(kinds, source, target),
        Coercion::Widen => t matches KindView::Nullable(inner) && compatible_spec(kinds, source, inner),
        Coercion::CopyWhenPresent => t matches KindView::Nullable(inner) && s matches KindView::Nullable(
            source_inner,
        ) && copies_spec(kinds, methods, coercions, source_inner, inner),
        Coercion::CopyThenWiden => t matches KindView::Nullable(inner) && copies_spec(
            kinds,
            methods,
            coercions,
            source,
            inner,
        ),
        Coercion::BoxThenWiden => t matches KindView::Nullable(inner) && site.spec_boxes() && any_error(
            kinds,
            coercions.error,
            inner,
        ) && may_box_spec(kinds, methods, coercions, source),
        Coercion::Unsize => t matches KindView::Borrowed { mutable, inner: object } && kinds[object.0 as int] matches KindView::Object {
            interface,
            ..
        } && s matches KindView::Borrowed { mutable: source_mutable, inner: referent } && source_mutable == mutable
            && !refused_shape(kinds, referent) && methods.spec_implements(kinds, referent, interface),
        Coercion::UnsizeInBox => !(t is Nullable) && !(t is Borrowed) && unsizes_in_box(
            kinds,
            methods,
            coercions,
            source,
            target,
        ),
        Coercion::Box => !(t is Nullable) && !(t is Borrowed) && site.spec_boxes() && any_error(
            kinds,
            coercions.error,
            target,
        ) && may_box_spec(kinds, methods, coercions, source),
        Coercion::Copy => !(t is Nullable) && !(t is Borrowed) && copies_spec(
            kinds,
            methods,
            coercions,
            source,
            target,
        ),
    }
}

/// The order the rules are tried in.
pub open spec fn rule_order() -> Seq<Coercion> {
    seq![
        Coercion::Identity,
        Coercion::Widen,
        Coercion::CopyWhenPresent,
        Coercion::CopyThenWiden,
        Coercion::BoxThenWiden,
        Coercion::Unsize,
        Coercion::UnsizeInBox,
        Coercion::Box,
        Coercion::Copy,
    ]
}

/// The first of `rules[i..]` that applies.
pub open spec fn first_rule<M: ImplementationIndex>(
    rules: Seq<Coercion>,
    i: int,
    kinds: Seq<KindView>,
    methods: &M,
    coercions: Coercions,
    site: Site,
    source: Ty,
    target: Ty,
) -> Option<Coercion>
    decreases rules.len() - i,
{
    if i < 0 || i >= rules.len() {
        None
    } else if rule_applies(rules[i], kinds, methods, coercions, site, source, target) {
        Some(rules[i])
    } else {
        first_rule(rules, i + 1, kinds, methods, coercions, site, source, target)
    }
}

/// The relation itself: the first rule, in [`rule_order`], that applies.
pub open spec fn assignability<M: ImplementationIndex>(
    kinds: Seq<KindView>,
    methods: &M,
    coercions: Coercions,
    site: Site,
    source: Ty,
    target: Ty,
) -> Option<Coercion> {
    first_rule(rule_order(), 0, kinds, methods, coercions, site, source, target)
}

/// The rules by the shape of the slot, as [`assignable`] tries them.
spec fn assignability_by_slot<M: ImplementationIndex>(
    kinds: Seq<KindView>,
    methods: &M,
    coercions: Coercions,
    site: Site,
    source: Ty,
    target: Ty,
) -> Option<Coercion> {
    if compatible_spec(kinds, source, target) {
        Some(Coercion::Identity)
    } else if let KindView::Nullable(inner) = kinds[target.0 as int] {
        if compatible_spec(kinds, source, inner) {
            Some(Coercion::Widen)
        } else if kinds[source.0 as int] matches KindView::Nullable(source_inner) && copies_spec(
            kinds,
            methods,
            coercions,
            source_inner,
            inner,
        ) {
            Some(Coercion::CopyWhenPresent)
        } else if copies_spec(kinds, methods, coercions, source, inner) {
            Some(Coercion::CopyThenWiden)
        } else if site.spec_boxes() && any_error(kinds, coercions.error, inner) && may_box_spec(
            kinds,
            methods,
            coercions,
            source,
        ) {
            Some(Coercion::BoxThenWiden)
        } else {
            None
        }
    } else if let KindView::Borrowed { mutable, inner: object } = kinds[target.0 as int] {
        match (kinds[object.0 as int], kinds[source.0 as int]) {
            (
                KindView::Object { interface, .. },
                KindView::Borrowed { mutable: source_mutable, inner: referent },
            ) => if source_mutable == mutable && !refused_shape(kinds, referent)
                && methods.spec_implements(kinds, referent, interface) {
                Some(Coercion::Unsize)
            } else {
                None
            },
            _ => None,
        }
    } else if unsizes_in_box(kinds, methods, coercions, source, target) {
        Some(Coercion::UnsizeInBox)
    } else if site.spec_boxes() && any_error(kinds, coercions.error, target) && may_box_spec(
        kinds,
        methods,
        coercions,
        source,
    ) {
        Some(Coercion::Box)
    } else if copies_spec(kinds, methods, coercions, source, target) {
        Some(Coercion::Copy)
    } else {
        None
    }
}

/// The unsizing rule one indirection over: `Box of C` into `Box of any I`.
pub open spec fn unsizes_in_box<M: ImplementationIndex>(
    kinds: Seq<KindView>,
    methods: &M,
    coercions: Coercions,
    source: Ty,
    target: Ty,
) -> bool {
    match (
        box_element_of(kinds, coercions.boxed, target),
        box_element_of(kinds, coercions.boxed, source),
    ) {
        (Some(object), Some(referent)) => kinds[object.0 as int] matches KindView::Object {
            interface,
            ..
        } && !refused_shape(kinds, referent) && methods.spec_implements(
            kinds,
            referent,
            interface,
        ),
        _ => false,
    }
}

proof fn lemma_operand_valid(types: &Types, ty: Ty)
    requires
        types.wf(),
        types.valid(ty),
    ensures
        forall|i: int| 0 <= i < operands(types@[ty.0 as int]).len() ==> types.valid(
            #[trigger] operands(types@[ty.0 as int])[i],
        ),
{
    assert(crate::ty::kind_below(types@[ty.0 as int], ty.0 as int));
}

/// Whether a value of type `source` may be put in a slot of type `target`,
/// and what has to happen to it if so. `None` is not assignable.
pub fn assignable<M: ImplementationIndex>(
    types: &Types,
    methods: &M,
    coercions: Coercions,
    site: Site,
    source: Ty,
    target: Ty,
) -> (r: Option<Coercion>)
    requires
        types.wf(),
        types.valid(source),
        types.valid(target),
    ensures
        r == assignability(types@, methods, coercions, site, source, target),
{
    proof {
        lemma_operand_valid(types, source);
        lemma_operand_valid(types, target);
        lemma_rules_by_slot(types@, methods, coercions, site, source, target);
    }
    // Rule 1. Structural equality, and an already-reported type agreeing with
    // whatever it meets.
    if types.compatible(source, target) {
        return Some(Coercion::Identity);
    }
    if let TyKind::Nullable(inner) = types.kind(target) {
        let inner = *inner;
        assert(operands(types@[target.0 as int])[0] == inner);
        // Rule 2. `T` into `T?`, and only in this direction.
        if types.compatible(source, inner) {
            return Some(Coercion::Widen);
        }
        // Rule 3. A copy under the `?`.
        if let TyKind::Nullable(source_inner) = types.kind(source) {
            let source_inner = *source_inner;
            assert(operands(types@[source.0 as int])[0] == source_inner);
            if copies(types, methods, coercions, source_inner, inner) {
                return Some(Coercion::CopyWhenPresent);
            }
        }
        // Rule 4. A copy, then the widening.
        if copies(types, methods, coercions, source, inner) {
            return Some(Coercion::CopyThenWiden);
        }
        // Rule 5. `-> (T, Error?)`.
        if site.boxes() && coercions.is_any_error(types, inner) && may_box(
            types,
            methods,
            coercions,
            source,
        ) {
            return Some(Coercion::BoxThenWiden);
        }
        return None;
    }
    // Rule 6. Unsizing a borrow; nothing below can apply to a borrowed target.
    if let TyKind::Borrowed { mutable, inner: object } = types.kind(target) {
        let (mutable, object) = (*mutable, *object);
        assert(operands(types@[target.0 as int])[0] == object);
        let interface = match types.kind(object) {
            TyKind::Object { interface, .. } => *interface,
            _ => return None,
        };
        let (source_mutable, referent) = match types.kind(source) {
            TyKind::Borrowed { mutable, inner } => (*mutable, *inner),
            _ => return None,
        };
        assert(operands(types@[source.0 as int])[0] == referent);
        if source_mutable != mutable || !unsizable(types, referent) {
            return None;
        }
        if !methods.implements(types, referent, interface) {
            return None;
        }
        return Some(Coercion::Unsize);
    }
    // Rule 7. Unsizing inside the prelude's `Box`.
    if let Some(object) = coercions.box_element(types, target) {
        if let TyKind::Object { interface, .. } = types.kind(object) {
            let interface = *interface;
            if let Some(referent) = coercions.box_element(types, source) {
                if unsizable(types, referent) && methods.implements(types, referent, interface) {
                    return Some(Coercion::UnsizeInBox);
                }
            }
        }
    }
    // Rule 8. Boxing a concrete error.
    if site.boxes() && coercions.is_any_error(types, target) && may_box(
        types,
        methods,
        coercions,
        source,
    ) {
        return Some(Coercion::Box);
    }
    // Rule 9. Copying out of a shared borrow.
    if copies(types, methods, coercions, source, target) {
        return Some(Coercion::Copy);
    }
    None
}

/// Whether `source` is a shared borrow of `target` and `target` is `Copy`.
fn copies<M: ImplementationIndex>(
    types: &Types,
    methods: &M,
    coercions: Coercions,
    source: Ty,
    target: Ty,
) -> (r: bool)
    requires
        types.wf(),
        types.valid(source),
        types.valid(target),
    ensures
        r == copies_spec(types@, methods, coercions, source, target),
{
    let copy = match coercions.copy_interface() {
        Some(c) => c,
        None => return false,
    };
    let inner = match types.kind(source) {
        TyKind::Borrowed { mutable: false, inner } => *inner,
        _ => return false,
    };
    proof {
        lemma_operand_valid(types, source);
        assert(operands(types@[source.0 as int])[0] == inner);
    }
    types.compatible(inner, target) && copyable(types, inner) && methods.declares(
        types,
        inner,
        copy,
    )
}

/// Whether `source` may be boxed into `any Error`.
fn may_box<M: ImplementationIndex>(types: &Types, methods: &M, coercions: Coercions, source: Ty) -> (r: bool)
    requires
        types.wf(),
        types.valid(source),
    ensures
        r == may_box_spec(types@, methods, coercions, source),
{
    let error = match coercions.error_interface() {
        Some(e) => e,
        None => return false,
    };
    boxable(types, source) && methods.implements(types, source, error)
}

/// Whether `source` is a shape that could be a concrete error type.
fn boxable(types: &Types, source: Ty) -> (r: bool)
    requires
        types.wf(),
        types.valid(source),
    ensures
        r == !refused_shape(types@, source),
{
    match types.kind(source) {
        TyKind::Nullable(_) | TyKind::Borrowed { .. } | TyKind::Object { .. } => false,
        _ => true,
    }
}

/// Whether the type behind the source indirection is a shape that could
/// implement an interface.
fn unsizable(types: &Types, referent: Ty) -> (r: bool)
    requires
        types.wf(),
        types.valid(referent),
    ensures
        r == !refused_shape(types@, referent),
{
    match types.kind(referent) {
        TyKind::Nullable(_) | TyKind::Borrowed { .. } | TyKind::Object { .. } => false,
        _ => true,
    }
}

/// Whether the type behind the source borrow is a shape that could be `Copy`.
fn copyable(types: &Types, referent: Ty) -> (r: bool)
    requires
        types.wf(),
        types.valid(referent),
    ensures
        r == !refused_shape(types@, referent),
{
    match types.kind(referent) {
        TyKind::Nullable(_) | TyKind::Borrowed { .. } | TyKind::Object { .. } => false,
        _ => true,
    }
}

/// Trying the rules in order is trying them by the shape of the slot.
proof fn lemma_rules_by_slot<M: ImplementationIndex>(
    kinds: Seq<KindView>,
    methods: &M,
    coercions: Coercions,
    site: Site,
    source: Ty,
    target: Ty,
)
    ensures
        assignability(kinds, methods, coercions, site, source, target) == assignability_by_slot(
            kinds,
            methods,
            coercions,
            site,
            source,
            target,
        ),
{
    reveal_with_fuel(first_rule, 10);
}

/// **Unsizing keeps the borrow's mutability.** A value goes into a
/// `borrowed any I` slot by unsizing only when it is a borrow of the same
/// kind as the slot's: a shared borrow never becomes a mutable one, and a
/// mutable one is not quietly made shared.
pub proof fn law_unsizing_keeps_mutability<M: ImplementationIndex>(
    kinds: Seq<KindView>,
    methods: &M,
    coercions: Coercions,
    site: Site,
    source: Ty,
    target: Ty,
)
    ensures
        assignability(kinds, methods, coercions, site, source, target) == Some(Coercion::Unsize) ==> (kinds[source.0 as int]
            matches KindView::Borrowed { mutable: from, .. } && kinds[target.0 as int] matches KindView::Borrowed {
            mutable: to,
            ..
        } && from == to),
{
    reveal_with_fuel(first_rule, 10);
    if assignability(kinds, methods, coercions, site, source, target) == Some(Coercion::Unsize) {
        assert(rule_applies(Coercion::Unsize, kinds, methods, coercions, site, source, target)) by {
            let o = rule_order();
            assert(o[0] == Coercion::Identity && o[1] == Coercion::Widen && o[2] == Coercion::CopyWhenPresent);
            assert(o[3] == Coercion::CopyThenWiden && o[4] == Coercion::BoxThenWiden && o[5] == Coercion::Unsize);
            assert(o[6] == Coercion::UnsizeInBox && o[7] == Coercion::Box && o[8] == Coercion::Copy);
        }
    }
}

/// **A type fits a slot of its own type with nothing emitted.**
pub proof fn law_assignable_reflexive<M: ImplementationIndex>(
    kinds: Seq<KindView>,
    methods: &M,
    coercions: Coercions,
    site: Site,
    ty: Ty,
)
    ensures
        assignability(kinds, methods, coercions, site, ty, ty) == Some(Coercion::Identity),
{
    lemma_rules_by_slot(kinds, methods, coercions, site, ty, ty);
}

/// **Boxing happens at a `return` and at an argument, and nowhere else**:
/// anywhere else the answer is never a box.
pub proof fn law_boxing_only_at_return_or_argument<M: ImplementationIndex>(
    kinds: Seq<KindView>,
    methods: &M,
    coercions: Coercions,
    source: Ty,
    target: Ty,
)
    ensures
        !(assignability(kinds, methods, coercions, Site::Elsewhere, source, target) matches Some(
            c,
        ) && (c == Coercion::Box || c == Coercion::BoxThenWiden)),
{
    lemma_rules_by_slot(kinds, methods, coercions, Site::Elsewhere, source, target);
}

/// Whether an answer is a box.
pub open spec fn is_box(c: Option<Coercion>) -> bool {
    c == Some(Coercion::Box) || c == Some(Coercion::BoxThenWiden)
}

/// **The site decides boxing and nothing else**: at two sites the answers
/// are the same, or one of them is a box.
pub proof fn law_site_decides_only_boxing<M: ImplementationIndex>(
    kinds: Seq<KindView>,
    methods: &M,
    coercions: Coercions,
    a: Site,
    b: Site,
    source: Ty,
    target: Ty,
)
    ensures
        assignability(kinds, methods, coercions, a, source, target) == assignability(
            kinds,
            methods,
            coercions,
            b,
            source,
            target,
        ) || is_box(assignability(kinds, methods, coercions, a, source, target)) || is_box(
            assignability(kinds, methods, coercions, b, source, target),
        ),
{
    lemma_rules_by_slot(kinds, methods, coercions, a, source, target);
    lemma_rules_by_slot(kinds, methods, coercions, b, source, target);
}

/// **Widening goes one way**: a nullable value never fits a slot that is not
/// nullable, unless the two types are already compatible.
pub proof fn law_no_implicit_unwrapping<M: ImplementationIndex>(
    kinds: Seq<KindView>,
    methods: &M,
    coercions: Coercions,
    site: Site,
    source: Ty,
    target: Ty,
)
    requires
        kinds[source.0 as int] is Nullable,
        !(kinds[target.0 as int] is Nullable),
        !compatible_spec(kinds, source, target),
    ensures
        assignability(kinds, methods, coercions, site, source, target) is None,
{
    lemma_rules_by_slot(kinds, methods, coercions, site, source, target);
}

/// **No prelude, no boxing**: without an `Error` interface the relation never
/// boxes, and without a `Copy` interface it never copies.
pub proof fn law_rules_need_their_interfaces<M: ImplementationIndex>(
    kinds: Seq<KindView>,
    methods: &M,
    coercions: Coercions,
    site: Site,
    source: Ty,
    target: Ty,
)
    ensures
        coercions.error is None ==> !(assignability(kinds, methods, coercions, site, source, target)
            matches Some(c) && (c == Coercion::Box || c == Coercion::BoxThenWiden)),
        coercions.copy is None ==> !(assignability(kinds, methods, coercions, site, source, target)
            matches Some(c) && (c == Coercion::Copy || c == Coercion::CopyThenWiden || c
            == Coercion::CopyWhenPresent)),
{
    lemma_rules_by_slot(kinds, methods, coercions, site, source, target);
}

} // verus!
