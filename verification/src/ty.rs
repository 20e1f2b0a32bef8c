//! Interned types: a [`Ty`] is an index into a [`Types`] table, the table
//! hands out an index only after a type's operands have theirs, and one kind
//! has one index.

use vstd::prelude::*;

verus! {

/// A definition a type can name: a record, a choice, an interface, a
/// parameter.
#[derive(Debug, Clone, Copy, PartialEq, Eq, Structural, Hash, PartialOrd, Ord)]
pub struct DefId(pub u32);

/// An interned type: an index into the [`Types`] that made it.
#[derive(Debug, Clone, Copy, PartialEq, Eq, Structural, Hash, PartialOrd, Ord)]
pub struct Ty(pub usize);

impl Ty {
    /// The error type, which every table holds at index 0.
    pub fn error() -> (ty: Ty)
        ensures
            ty.0 == 0,
    {
        Ty(0)
    }

    /// The unit type, which every table holds at index 1.
    pub fn unit() -> (ty: Ty)
        ensures
            ty.0 == 1,
    {
        Ty(1)
    }
}

/// A const generic argument in normal form: `constant + Σ coefficient·parameter`.
#[derive(Debug)]
pub struct NormalForm {
    pub constant: i128,
    pub terms: Vec<(DefId, i128)>,
}

/// What a [`NormalForm`] holds.
pub ghost struct NormalFormView {
    pub constant: int,
    pub terms: Seq<(DefId, int)>,
}

impl View for NormalForm {
    type V = NormalFormView;

    open spec fn view(&self) -> NormalFormView {
        NormalFormView {
            constant: self.constant as int,
            terms: self.terms@.map_values(|t: (DefId, i128)| (t.0, t.1 as int)),
        }
    }
}

/// One entry of an `of (..)` list.
#[derive(Debug)]
pub enum GenericArg {
    Type(Ty),
    Const(NormalForm),
    /// An argument already reported as wrong.
    Error,
}

/// What a [`GenericArg`] holds.
pub ghost enum ArgView {
    Type(Ty),
    Const(NormalFormView),
    Error,
}

impl View for GenericArg {
    type V = ArgView;

    open spec fn view(&self) -> ArgView {
        match self {
            GenericArg::Type(ty) => ArgView::Type(*ty),
            GenericArg::Const(form) => ArgView::Const(form@),
            GenericArg::Error => ArgView::Error,
        }
    }
}

impl GenericArg {
    /// The argument's type, when it is a type.
    pub fn as_type(&self) -> (ty: Option<Ty>)
        ensures
            ty == (match self@ {
                ArgView::Type(t) => Some(t),
                _ => None,
            }),
    {
        match self {
            GenericArg::Type(ty) => Some(*ty),
            _ => None,
        }
    }
}

/// The views of an argument list.
pub open spec fn args_view(args: Seq<GenericArg>) -> Seq<ArgView> {
    args.map_values(|a: GenericArg| a@)
}

/// The shape of a type.
#[derive(Debug)]
pub enum TyKind {
    /// A type already reported as wrong; it agrees with whatever it meets.
    Error,
    Unit,
    Param { def: DefId },
    SelfType { owner: DefId },
    SelfAssoc { assoc: DefId },
    Borrowed { mutable: bool, inner: Ty },
    Nullable(Ty),
    Tuple(Vec<Ty>),
    Closure { params: Vec<Ty>, ret: Ty },
    Named { def: DefId, args: Vec<GenericArg> },
    Object { interface: DefId, args: Vec<GenericArg> },
}

/// What a [`TyKind`] holds.
pub ghost enum KindView {
    Error,
    Unit,
    Param { def: DefId },
    SelfType { owner: DefId },
    SelfAssoc { assoc: DefId },
    Borrowed { mutable: bool, inner: Ty },
    Nullable(Ty),
    Tuple(Seq<Ty>),
    Closure { params: Seq<Ty>, ret: Ty },
    Named { def: DefId, args: Seq<ArgView> },
    Object { interface: DefId, args: Seq<ArgView> },
}

impl View for TyKind {
    type V = KindView;

    open spec fn view(&self) -> KindView {
        match self {
            TyKind::Error => KindView::Error,
            TyKind::Unit => KindView::Unit,
            TyKind::Param { def } => KindView::Param { def: *def },
            TyKind::SelfType { owner } => KindView::SelfType { owner: *owner },
            TyKind::SelfAssoc { assoc } => KindView::SelfAssoc { assoc: *assoc },
            TyKind::Borrowed { mutable, inner } => KindView::Borrowed {
                mutable: *mutable,
                inner: *inner,
            },
            TyKind::Nullable(inner) => KindView::Nullable(*inner),
            TyKind::Tuple(elements) => KindView::Tuple(elements@),
            TyKind::Closure { params, ret } => KindView::Closure { params: params@, ret: *ret },
            TyKind::Named { def, args } => KindView::Named { def: *def, args: args_view(args@) },
            TyKind::Object { interface, args } => KindView::Object {
                interface: *interface,
                args: args_view(args@),
            },
        }
    }
}

/// The types among an argument list, in order.
pub open spec fn arg_types(args: Seq<ArgView>) -> Seq<Ty>
    decreases args.len(),
{
    if args.len() == 0 {
        seq![]
    } else {
        let rest = arg_types(args.drop_last());
        match args.last() {
            ArgView::Type(t) => rest.push(t),
            _ => rest,
        }
    }
}

/// The types a kind is built from, in order.
pub open spec fn operands(k: KindView) -> Seq<Ty> {
    match k {
        KindView::Borrowed { inner, .. } => seq![inner],
        KindView::Nullable(inner) => seq![inner],
        KindView::Tuple(elements) => elements,
        KindView::Closure { params, ret } => params.push(ret),
        KindView::Named { args, .. } => arg_types(args),
        KindView::Object { args, .. } => arg_types(args),
        _ => seq![],
    }
}

/// Every operand of the kind is an index below `bound`.
pub open spec fn kind_below(k: KindView, bound: int) -> bool {
    forall|i: int| 0 <= i < operands(k).len() ==> (#[trigger] operands(k)[i]).0 < bound
}

/// A well-formed table: the error type at 0, unit at 1, every type's operands
/// interned before it, and no kind twice.
pub open spec fn wf_kinds(kinds: Seq<KindView>) -> bool {
    &&& kinds.len() >= 2
    &&& kinds[0] == KindView::Error
    &&& kinds[1] == KindView::Unit
    &&& forall|i: int| 0 <= i < kinds.len() ==> kind_below(#[trigger] kinds[i], i)
    &&& forall|i: int, j: int| 0 <= i < j < kinds.len() ==> #[trigger] kinds[i] != #[trigger] kinds[j]
}

/// `after` is `before` with zero or more types interned after it.
pub open spec fn extends(before: Seq<KindView>, after: Seq<KindView>) -> bool {
    before.len() <= after.len() && after.take(before.len() as int) == before
}

/// Whether the type at `t` mentions the error type anywhere in it.
pub open spec fn mentions_error(kinds: Seq<KindView>, t: int) -> bool
    decreases t + 1, 0int,
{
    if t < 0 || t >= kinds.len() {
        false
    } else if kinds[t] is Error {
        true
    } else {
        any_mentions_error(kinds, operands(kinds[t]), 0, t)
    }
}

/// Whether one of `tys[i..]`, each below `bound`, mentions the error type.
pub open spec fn any_mentions_error(kinds: Seq<KindView>, tys: Seq<Ty>, i: int, bound: int) -> bool
    decreases bound, tys.len() - i,
{
    if i < 0 || i >= tys.len() {
        false
    } else if tys[i].0 < bound && mentions_error(kinds, tys[i].0 as int) {
        true
    } else {
        any_mentions_error(kinds, tys, i + 1, bound)
    }
}

/// The table of interned types.
#[derive(Debug)]
pub struct Types {
    kinds: Vec<TyKind>,
}

impl View for Types {
    type V = Seq<KindView>;

    closed spec fn view(&self) -> Seq<KindView> {
        self.kinds@.map_values(|k: TyKind| k@)
    }
}

impl Types {
    /// Whether the table is well formed.
    pub open spec fn wf(&self) -> bool {
        wf_kinds(self@)
    }

    /// Whether `ty` is an index into this table.
    pub open spec fn valid(&self, ty: Ty) -> bool {
        ty.0 < self@.len()
    }

    /// A table holding the error type and unit.
    pub fn new() -> (types: Types)
        ensures
            types.wf(),
            types@ == seq![KindView::Error, KindView::Unit],
    {
        let mut kinds: Vec<TyKind> = Vec::new();
        kinds.push(TyKind::Error);
        kinds.push(TyKind::Unit);
        let types = Types { kinds };
        assert(types@ =~= seq![KindView::Error, KindView::Unit]);
        assert(operands(KindView::Error) =~= Seq::<Ty>::empty());
        assert(operands(KindView::Unit) =~= Seq::<Ty>::empty());
        types
    }

    /// How many types the table holds.
    pub fn len(&self) -> (n: usize)
        ensures
            n == self@.len(),
    {
        self.kinds.len()
    }

    /// The shape of a type.
    pub fn kind(&self, ty: Ty) -> (k: &TyKind)
        requires
            self.valid(ty),
        ensures
            k@ == self@[ty.0 as int],
    {
        &self.kinds[ty.0]
    }

    /// The index of `kind`, interning it first when it is new.
    pub fn intern(&mut self, kind: TyKind) -> (ty: Ty)
        requires
            old(self).wf(),
            kind_below(kind@, old(self)@.len() as int),
        ensures
            final(self).wf(),
            extends(old(self)@, final(self)@),
            final(self).valid(ty),
            final(self)@[ty.0 as int] == kind@,
            old(self)@.contains(kind@) ==> final(self)@ == old(self)@,
            !old(self)@.contains(kind@) ==> final(self)@ == old(self)@.push(kind@),
    {
        let ghost before = self@;
        let mut i: usize = 0;
        while i < self.kinds.len()
            invariant
                before == old(self)@,
                self@ == before,
                self.wf(),
                i <= self.kinds.len(),
                forall|j: int| 0 <= j < i ==> before[j] != kind@,
            decreases self.kinds.len() - i,
        {
            if kind_eq(&self.kinds[i], &kind) {
                proof {
                    assert(before[i as int] == kind@);
                    assert(before.contains(kind@));
                    assert(before.take(before.len() as int) =~= before);
                }
                return Ty(i);
            }
            i = i + 1;
        }
        let index = self.kinds.len();
        self.kinds.push(kind);
        proof {
            assert(self@ =~= before.push(kind@));
            assert(self@.take(before.len() as int) =~= before);
            assert forall|j: int| 0 <= j < self@.len() implies kind_below(#[trigger] self@[j], j) by {
                if j < before.len() {
                    assert(self@[j] == before[j]);
                }
            }
            assert(!before.contains(kind@)) by {
                if before.contains(kind@) {
                    let j = choose|j: int| 0 <= j < before.len() && before[j] == kind@;
                    assert(before[j] != kind@);
                }
            }
        }
        Ty(index)
    }

    /// `borrowed inner`, or `mutable borrowed inner`.
    pub fn borrowed(&mut self, mutable: bool, inner: Ty) -> (ty: Ty)
        requires
            old(self).wf(),
            old(self).valid(inner),
        ensures
            final(self).wf(),
            extends(old(self)@, final(self)@),
            final(self).valid(ty),
            final(self)@[ty.0 as int] == (KindView::Borrowed { mutable, inner }),
    {
        let kind = TyKind::Borrowed { mutable, inner };
        proof {
            assert(operands(kind@) =~= seq![inner]);
        }
        self.intern(kind)
    }

    /// `inner?`, which is `inner` itself when `inner` is already nullable:
    /// a substitution never makes `T??`.
    pub fn nullable(&mut self, inner: Ty) -> (ty: Ty)
        requires
            old(self).wf(),
            old(self).valid(inner),
        ensures
            final(self).wf(),
            extends(old(self)@, final(self)@),
            final(self).valid(ty),
            old(self)@[inner.0 as int] is Nullable ==> ty == inner && final(self)@ == old(self)@,
            !(old(self)@[inner.0 as int] is Nullable) ==> final(self)@[ty.0 as int] == KindView::Nullable(inner),
    {
        if let TyKind::Nullable(_) = self.kind(inner) {
            proof {
                assert(self@.take(self@.len() as int) =~= self@);
            }
            return inner;
        }
        let kind = TyKind::Nullable(inner);
        proof {
            assert(operands(kind@) =~= seq![inner]);
        }
        self.intern(kind)
    }

    /// A tuple of the given elements.
    pub fn tuple(&mut self, elements: Vec<Ty>) -> (ty: Ty)
        requires
            old(self).wf(),
            forall|i: int| 0 <= i < elements@.len() ==> old(self).valid(#[trigger] elements@[i]),
        ensures
            final(self).wf(),
            extends(old(self)@, final(self)@),
            final(self).valid(ty),
            final(self)@[ty.0 as int] == KindView::Tuple(elements@),
    {
        self.intern(TyKind::Tuple(elements))
    }

    /// A closure type.
    pub fn closure(&mut self, params: Vec<Ty>, ret: Ty) -> (ty: Ty)
        requires
            old(self).wf(),
            forall|i: int| 0 <= i < params@.len() ==> old(self).valid(#[trigger] params@[i]),
            old(self).valid(ret),
        ensures
            final(self).wf(),
            extends(old(self)@, final(self)@),
            final(self).valid(ty),
            final(self)@[ty.0 as int] == (KindView::Closure { params: params@, ret }),
    {
        let ghost p = params@;
        let kind = TyKind::Closure { params, ret };
        proof {
            assert forall|i: int| 0 <= i < operands(kind@).len() implies (#[trigger] operands(
                kind@,
            )[i]).0 < self@.len() by {
                if i < p.len() {
                    assert(operands(kind@)[i] == p[i]);
                }
            }
        }
        self.intern(kind)
    }

    /// A named type at the given arguments.
    pub fn named(&mut self, def: DefId, args: Vec<GenericArg>) -> (ty: Ty)
        requires
            old(self).wf(),
            forall|i: int|
                0 <= i < arg_types(args_view(args@)).len() ==> old(self).valid(
                    #[trigger] arg_types(args_view(args@))[i],
                ),
        ensures
            final(self).wf(),
            extends(old(self)@, final(self)@),
            final(self).valid(ty),
            final(self)@[ty.0 as int] == (KindView::Named { def, args: args_view(args@) }),
    {
        self.intern(TyKind::Named { def, args })
    }

    /// An interface object at the given arguments.
    pub fn object(&mut self, interface: DefId, args: Vec<GenericArg>) -> (ty: Ty)
        requires
            old(self).wf(),
            forall|i: int|
                0 <= i < arg_types(args_view(args@)).len() ==> old(self).valid(
                    #[trigger] arg_types(args_view(args@))[i],
                ),
        ensures
            final(self).wf(),
            extends(old(self)@, final(self)@),
            final(self).valid(ty),
            final(self)@[ty.0 as int] == (KindView::Object { interface, args: args_view(args@) }),
    {
        self.intern(TyKind::Object { interface, args })
    }

    /// A generic parameter.
    pub fn param(&mut self, def: DefId) -> (ty: Ty)
        requires
            old(self).wf(),
        ensures
            final(self).wf(),
            extends(old(self)@, final(self)@),
            final(self).valid(ty),
            final(self)@[ty.0 as int] == (KindView::Param { def }),
    {
        let kind = TyKind::Param { def };
        proof {
            assert(operands(kind@) =~= Seq::<Ty>::empty());
        }
        self.intern(kind)
    }

    /// `Self` inside the block `owner`.
    pub fn self_type(&mut self, owner: DefId) -> (ty: Ty)
        requires
            old(self).wf(),
        ensures
            final(self).wf(),
            extends(old(self)@, final(self)@),
            final(self).valid(ty),
            final(self)@[ty.0 as int] == (KindView::SelfType { owner }),
    {
        let kind = TyKind::SelfType { owner };
        proof {
            assert(operands(kind@) =~= Seq::<Ty>::empty());
        }
        self.intern(kind)
    }

    /// Whether the type mentions the error type anywhere in it.
    pub fn references_error(&self, ty: Ty) -> (r: bool)
        requires
            self.wf(),
            self.valid(ty),
        ensures
            r == mentions_error(self@, ty.0 as int),
        decreases ty.0 + 1, 0nat,
    {
        let ghost kinds = self@;
        proof {
            assert(kind_below(kinds[ty.0 as int], ty.0 as int));
        }
        match &self.kinds[ty.0] {
            TyKind::Error => true,
            TyKind::Unit | TyKind::Param { .. } | TyKind::SelfType { .. } | TyKind::SelfAssoc {
                ..
            } => {
                assert(operands(kinds[ty.0 as int]) =~= Seq::<Ty>::empty());
                false
            },
            TyKind::Borrowed { inner, .. } | TyKind::Nullable(inner) => {
                let inner = *inner;
                let ghost ops = operands(kinds[ty.0 as int]);
                assert(ops[0] == inner);
                let r = self.references_error(inner);
                assert(any_mentions_error(kinds, ops, 1, ty.0 as int) == false);
                r
            },
            TyKind::Tuple(elements) => {
                assert(operands(kinds[ty.0 as int]) == elements@);
                assert forall|k: int| 0 <= k < elements@.len() implies (#[trigger] elements@[k]).0
                    < ty.0 by {
                    assert(operands(kinds[ty.0 as int])[k] == elements@[k]);
                }
                self.any_references_error(elements, 0, ty)
            },
            TyKind::Closure { params, ret } => {
                let ghost ops = operands(kinds[ty.0 as int]);
                proof {
                    assert(ops =~= params@.push(*ret));
                }
                assert forall|k: int| 0 <= k < params@.len() implies (#[trigger] params@[k]).0
                    < ty.0 by {
                    assert(ops[k] == params@[k]);
                }
                assert(ops[params@.len() as int] == *ret);
                if self.any_references_error(params, 0, ty) {
                    proof {
                        lemma_any_prefix(kinds, params@, ops, 0, ty.0 as int);
                    }
                    true
                } else {
                    let r = self.references_error(*ret);
                    proof {
                        lemma_any_split(kinds, params@, *ret, 0, ty.0 as int);
                    }
                    r
                }
            },
            TyKind::Named { args, .. } | TyKind::Object { args, .. } => {
                let ghost ops = operands(kinds[ty.0 as int]);
                assert(ops == arg_types(args_view(args@)));
                assert(args_view(args@).take(args@.len() as int) =~= args_view(args@));
                assert forall|k: int|
                    0 <= k < arg_types(args_view(args@)).len() implies (#[trigger] arg_types(
                    args_view(args@),
                )[k]).0 < ty.0 by {
                    assert(ops[k] == arg_types(args_view(args@))[k]);
                }
                self.args_reference_error(args, args.len(), ty)
            },
        }
    }

    /// Whether one of `tys[i..]` mentions the error type, where every entry is
    /// below `bound`.
    fn any_references_error(&self, tys: &Vec<Ty>, i: usize, bound: Ty) -> (r: bool)
        requires
            self.wf(),
            self.valid(bound),
            i <= tys@.len(),
            forall|k: int| 0 <= k < tys@.len() ==> (#[trigger] tys@[k]).0 < bound.0,
        ensures
            r == any_mentions_error(self@, tys@, i as int, bound.0 as int),
        decreases bound.0, tys@.len() - i,
    {
        if i >= tys.len() {
            return false;
        }
        if self.references_error(tys[i]) {
            return true;
        }
        self.any_references_error(tys, i + 1, bound)
    }

    /// Whether one of the types among `args[..n]` mentions the error type,
    /// where every one is below `bound`.
    fn args_reference_error(&self, args: &Vec<GenericArg>, n: usize, bound: Ty) -> (r: bool)
        requires
            self.wf(),
            self.valid(bound),
            n <= args@.len(),
            forall|k: int|
                0 <= k < arg_types(args_view(args@)).len() ==> (#[trigger] arg_types(
                    args_view(args@),
                )[k]).0 < bound.0,
        ensures
            r == any_mentions_error(
                self@,
                arg_types(args_view(args@).take(n as int)),
                0,
                bound.0 as int,
            ),
        decreases bound.0, n,
    {
        let ghost all = args_view(args@);
        proof {
            lemma_arg_types_prefix(all, n as int);
        }
        if n == 0 {
            assert(arg_types(all.take(0)) =~= Seq::<Ty>::empty());
            return false;
        }
        let ghost prefix = all.take(n - 1);
        proof {
            assert(all.take(n as int).drop_last() =~= prefix);
            lemma_arg_types_prefix(all, n - 1);
        }
        let before = self.args_reference_error(args, n - 1, bound);
        match &args[n - 1] {
            GenericArg::Type(t) => {
                let t = *t;
                proof {
                    assert(arg_types(all.take(n as int)) == arg_types(prefix).push(t));
                    lemma_arg_types_prefix(all, n as int);
                    let ts = arg_types(all.take(n as int));
                    assert(ts[ts.len() - 1] == t);
                    assert(ts[ts.len() - 1] == arg_types(all)[ts.len() - 1]);
                    assert(t.0 < bound.0);
                    lemma_any_split(self@, arg_types(prefix), t, 0, bound.0 as int);
                }
                if before {
                    true
                } else {
                    self.references_error(t)
                }
            },
            _ => {
                assert(arg_types(all.take(n as int)) == arg_types(prefix));
                before
            },
        }
    }

    /// Structural equality, with an already-reported type agreeing with
    /// whatever it meets.
    pub fn compatible(&self, left: Ty, right: Ty) -> (r: bool)
        requires
            self.wf(),
            self.valid(left),
            self.valid(right),
        ensures
            r == (left == right || mentions_error(self@, left.0 as int) || mentions_error(
                self@,
                right.0 as int,
            )),
    {
        left == right || self.references_error(left) || self.references_error(right)
    }
}

/// The types among a prefix of an argument list are a prefix of its types,
/// and all of them are types of the list.
proof fn lemma_arg_types_prefix(args: Seq<ArgView>, n: int)
    requires
        0 <= n <= args.len(),
    ensures
        arg_types(args.take(n)).len() <= arg_types(args).len(),
        forall|k: int|
            0 <= k < arg_types(args.take(n)).len() ==> #[trigger] arg_types(args.take(n))[k]
                == arg_types(args)[k],
    decreases args.len(),
{
    if n < args.len() {
        assert(args.drop_last().take(n) =~= args.take(n));
        lemma_arg_types_prefix(args.drop_last(), n);
    } else {
        assert(args.take(n) =~= args);
    }
}

/// The type argument at `i`, when it is one, is among the list's types.
pub proof fn lemma_arg_type_valid(args: Seq<ArgView>, i: int, bound: int)
    requires
        0 <= i < args.len(),
        forall|k: int| 0 <= k < arg_types(args).len() ==> (#[trigger] arg_types(args)[k]).0 < bound,
    ensures
        args[i] matches ArgView::Type(t) ==> t.0 < bound,
    decreases args.len(),
{
    if i < args.len() - 1 {
        let rest = args.drop_last();
        assert forall|k: int| 0 <= k < arg_types(rest).len() implies (#[trigger] arg_types(rest)[k]).0
            < bound by {
            assert(arg_types(args)[k] == arg_types(rest)[k]);
        }
        lemma_arg_type_valid(rest, i, bound);
        assert(rest[i] == args[i]);
    } else {
        if let ArgView::Type(t) = args[i] {
            assert(arg_types(args) == arg_types(args.drop_last()).push(t));
            assert(arg_types(args)[arg_types(args).len() - 1] == t);
        }
    }
}

/// `any_mentions_error` over `tys + [t]` is over `tys`, then `t`.
proof fn lemma_any_split(kinds: Seq<KindView>, tys: Seq<Ty>, t: Ty, i: int, bound: int)
    requires
        0 <= i <= tys.len(),
        t.0 < bound,
    ensures
        any_mentions_error(kinds, tys.push(t), i, bound) == (any_mentions_error(
            kinds,
            tys,
            i,
            bound,
        ) || mentions_error(kinds, t.0 as int)),
    decreases tys.len() - i,
{
    if i < tys.len() {
        assert(tys.push(t)[i] == tys[i]);
        lemma_any_split(kinds, tys, t, i + 1, bound);
    } else {
        assert(tys.push(t)[i] == t);
        assert(any_mentions_error(kinds, tys.push(t), i + 1, bound) == false);
    }
}

/// A mention in a prefix is a mention in the whole.
proof fn lemma_any_prefix(kinds: Seq<KindView>, tys: Seq<Ty>, whole: Seq<Ty>, i: int, bound: int)
    requires
        0 <= i <= tys.len() <= whole.len(),
        forall|k: int| 0 <= k < tys.len() ==> #[trigger] tys[k] == whole[k],
        any_mentions_error(kinds, tys, i, bound),
    ensures
        any_mentions_error(kinds, whole, i, bound),
    decreases tys.len() - i,
{
    if i < tys.len() {
        assert(tys[i] == whole[i]);
        if !(tys[i].0 < bound && mentions_error(kinds, tys[i].0 as int)) {
            lemma_any_prefix(kinds, tys, whole, i + 1, bound);
        }
    }
}

// ---------------------------------------------------------------------------
// Equality of kinds
// ---------------------------------------------------------------------------

fn tys_eq(a: &Vec<Ty>, b: &Vec<Ty>) -> (r: bool)
    ensures
        r == (a@ == b@),
{
    if a.len() != b.len() {
        return false;
    }
    let mut i: usize = 0;
    while i < a.len()
        invariant
            a.len() == b.len(),
            i <= a.len(),
            forall|k: int| 0 <= k < i ==> a@[k] == b@[k],
        decreases a.len() - i,
    {
        if a[i] != b[i] {
            return false;
        }
        i = i + 1;
    }
    assert(a@ =~= b@);
    true
}

fn normal_form_eq(a: &NormalForm, b: &NormalForm) -> (r: bool)
    ensures
        r == (a@ == b@),
{
    if a.constant != b.constant || a.terms.len() != b.terms.len() {
        proof {
            if a.terms.len() != b.terms.len() {
                assert(a@.terms.len() != b@.terms.len());
            }
        }
        return false;
    }
    let mut i: usize = 0;
    while i < a.terms.len()
        invariant
            a.terms.len() == b.terms.len(),
            i <= a.terms.len(),
            forall|k: int| 0 <= k < i ==> a.terms@[k] == b.terms@[k],
        decreases a.terms.len() - i,
    {
        let (da, ca) = a.terms[i];
        let (db, cb) = b.terms[i];
        if da != db || ca != cb {
            assert(a@.terms[i as int] != b@.terms[i as int]);
            return false;
        }
        i = i + 1;
    }
    assert(a.terms@ =~= b.terms@);
    assert(a@.terms =~= b@.terms);
    true
}

pub fn arg_eq(a: &GenericArg, b: &GenericArg) -> (r: bool)
    ensures
        r == (a@ == b@),
{
    match (a, b) {
        (GenericArg::Type(x), GenericArg::Type(y)) => x == y,
        (GenericArg::Const(x), GenericArg::Const(y)) => normal_form_eq(x, y),
        (GenericArg::Error, GenericArg::Error) => true,
        _ => false,
    }
}

fn args_eq(a: &Vec<GenericArg>, b: &Vec<GenericArg>) -> (r: bool)
    ensures
        r == (args_view(a@) == args_view(b@)),
{
    if a.len() != b.len() {
        assert(args_view(a@).len() != args_view(b@).len());
        return false;
    }
    let mut i: usize = 0;
    while i < a.len()
        invariant
            a.len() == b.len(),
            i <= a.len(),
            forall|k: int| 0 <= k < i ==> a@[k]@ == b@[k]@,
        decreases a.len() - i,
    {
        if !arg_eq(&a[i], &b[i]) {
            assert(args_view(a@)[i as int] != args_view(b@)[i as int]);
            return false;
        }
        i = i + 1;
    }
    assert(args_view(a@) =~= args_view(b@));
    true
}

/// Whether two kinds are the same kind.
pub fn kind_eq(a: &TyKind, b: &TyKind) -> (r: bool)
    ensures
        r == (a@ == b@),
{
    match (a, b) {
        (TyKind::Error, TyKind::Error) => true,
        (TyKind::Unit, TyKind::Unit) => true,
        (TyKind::Param { def: x }, TyKind::Param { def: y }) => x == y,
        (TyKind::SelfType { owner: x }, TyKind::SelfType { owner: y }) => x == y,
        (TyKind::SelfAssoc { assoc: x }, TyKind::SelfAssoc { assoc: y }) => x == y,
        (
            TyKind::Borrowed { mutable: m1, inner: i1 },
            TyKind::Borrowed { mutable: m2, inner: i2 },
        ) => m1 == m2 && i1 == i2,
        (TyKind::Nullable(x), TyKind::Nullable(y)) => x == y,
        (TyKind::Tuple(x), TyKind::Tuple(y)) => tys_eq(x, y),
        (TyKind::Closure { params: p1, ret: r1 }, TyKind::Closure { params: p2, ret: r2 }) => {
            r1 == r2 && tys_eq(p1, p2)
        },
        (TyKind::Named { def: d1, args: a1 }, TyKind::Named { def: d2, args: a2 }) => {
            d1 == d2 && args_eq(a1, a2)
        },
        (
            TyKind::Object { interface: d1, args: a1 },
            TyKind::Object { interface: d2, args: a2 },
        ) => d1 == d2 && args_eq(a1, a2),
        _ => false,
    }
}

} // verus!
