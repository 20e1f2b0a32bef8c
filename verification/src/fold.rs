//! Rebuilding one interned type into another: the one traversal over
//! [`TyKind`], written once, with a folder supplying only the arms it changes.

use vstd::prelude::*;

use crate::infer::Span;

use crate::ty::{
    arg_types, args_view, extends, ArgView, GenericArg, KindView, NormalForm, Ty, TyKind, Types,
};

verus! {

/// A fold fails in one way: the const half of a substitution leaves the
/// arithmetic range, at the const expression written at `at` when one is
/// known.
#[derive(Debug, Clone, Copy, PartialEq, Eq, Structural)]
pub enum ConstEvalError {
    Overflow { at: Option<Span> },
}

/// Where an evaluation error happened, when it is known.
pub open spec fn error_site(e: ConstEvalError) -> Option<Span> {
    match e {
        ConstEvalError::Overflow { at } => at,
    }
}

impl ConstEvalError {
    /// Where the arithmetic left the range, when the expression has a place.
    pub fn span(&self) -> (r: Option<Span>)
        ensures
            r == error_site(*self),
    {
        match self {
            ConstEvalError::Overflow { at } => *at,
        }
    }
}

/// Whether every type among the arguments is a type of `types`.
pub open spec fn args_valid(types: Seq<KindView>, args: Seq<ArgView>) -> bool {
    forall|i: int| 0 <= i < arg_types(args).len() ==> (#[trigger] arg_types(args)[i]).0 < types.len()
}

/// Whether two kinds are the same constructor over the same number of
/// operands: the same variant, definition and mutability, and as many
/// elements, parameters or arguments.
pub open spec fn same_shape(a: KindView, b: KindView) -> bool {
    match (a, b) {
        (KindView::Error, KindView::Error) => true,
        (KindView::Unit, KindView::Unit) => true,
        (KindView::Param { def: x }, KindView::Param { def: y }) => x == y,
        (KindView::SelfType { owner: x }, KindView::SelfType { owner: y }) => x == y,
        (KindView::SelfAssoc { assoc: x }, KindView::SelfAssoc { assoc: y }) => x == y,
        (KindView::Borrowed { mutable: m, .. }, KindView::Borrowed { mutable: n, .. }) => m == n,
        (KindView::Nullable(_), KindView::Nullable(_)) => true,
        (KindView::Tuple(x), KindView::Tuple(y)) => x.len() == y.len(),
        (KindView::Closure { params: x, .. }, KindView::Closure { params: y, .. }) => x.len()
            == y.len(),
        (KindView::Named { def: d, args: x }, KindView::Named { def: e, args: y }) => d == e
            && x.len() == y.len(),
        (KindView::Object { interface: d, args: x }, KindView::Object { interface: e, args: y }) => d
            == e && x.len() == y.len(),
        _ => false,
    }
}

/// Whether a kind has no operands.
pub open spec fn is_leaf(k: KindView) -> bool {
    k is Error || k is Unit || k is Param || k is SelfType || k is SelfAssoc
}

/// What folding one part of a type did: from the folder `s` over the table
/// `before`, the part gave `out`, leaving the folder as `after` and the table
/// as `types_after`. A type part goes to [`TypeFolder::fold_ty`], whose
/// [`TypeFolder::fold_ty_step`] says what it does, and comes back a type; a
/// const or error argument comes back as no type, and as it was, with the
/// folder and the table untouched, for a folder that keeps consts.
pub open spec fn part_step<F: TypeFolder>(
    s: F,
    before: Seq<KindView>,
    part: ArgView,
    out: Result<ArgView, ConstEvalError>,
    after: F,
    types_after: Seq<KindView>,
) -> bool {
    match part {
        ArgView::Type(x) => s.fold_ty_step(before, x, ty_result(out), after, types_after) && (out matches Ok(a)
            ==> a is Type),
        _ => (out matches Ok(a) ==> !(a is Type)) && (s.keeps_consts() ==> (out == Ok::<ArgView, ConstEvalError>(
            part,
        ) && after == s && types_after == before)),
    }
}

/// The type an outcome holds, with its error as it is.
pub open spec fn ty_result(out: Result<ArgView, ConstEvalError>) -> Result<Ty, ConstEvalError> {
    match out {
        Ok(ArgView::Type(t)) => Ok(t),
        Ok(_) => Ok(Ty(0)),
        Err(e) => Err(e),
    }
}

/// An argument outcome, by the argument's view.
pub open spec fn arg_result(r: Result<GenericArg, ConstEvalError>) -> Result<ArgView, ConstEvalError> {
    match r {
        Ok(a) => Ok(a@),
        Err(e) => Err(e),
    }
}

/// A rewrite from types to types.
///
/// Implementors override [`TypeFolder::fold_ty`] for the nodes they change and
/// call [`fold_children`] for everything else, which is the recursion. A fold
/// only ever adds types to the table.
pub trait TypeFolder: Sized {
    /// What [`TypeFolder::fold_ty`] does: from this folder over the table
    /// `before`, folding `ty` gives `r` and leaves the folder as `after` and
    /// the table as `types_after`. A folder that states nothing of itself
    /// allows any outcome.
    open spec fn fold_ty_step(
        &self,
        before: Seq<KindView>,
        ty: Ty,
        r: Result<Ty, ConstEvalError>,
        after: Self,
        types_after: Seq<KindView>,
    ) -> bool {
        true
    }

    /// Whether this folder leaves const and error arguments as they are,
    /// which the default [`TypeFolder::fold_arg`] does. A folder that
    /// rewrites consts says otherwise.
    open spec fn keeps_consts(&self) -> bool {
        true
    }

    /// The whole of the rewrite, for one type.
    fn fold_ty(&mut self, types: &mut Types, ty: Ty) -> (r: Result<Ty, ConstEvalError>)
        requires
            old(types).wf(),
            old(types).valid(ty),
        ensures
            final(types).wf(),
            extends(old(types)@, final(types)@),
            r matches Ok(t) ==> final(types).valid(t),
            old(self).fold_ty_step(old(types)@, ty, r, *final(self), final(types)@),
    ;

    /// One entry of an `of (..)` list. A type argument is folded as
    /// [`TypeFolder::fold_ty`] folds it and comes back a type; the default
    /// leaves a const or error argument alone.
    fn fold_arg(&mut self, types: &mut Types, arg: &GenericArg) -> (r: Result<
        GenericArg,
        ConstEvalError,
    >)
        requires
            old(types).wf(),
            arg@ matches ArgView::Type(t) ==> old(types).valid(t),
        ensures
            final(types).wf(),
            extends(old(types)@, final(types)@),
            r matches Ok(a) ==> (a@ matches ArgView::Type(t) ==> final(types).valid(t)),
            arg@ matches ArgView::Type(x) ==> old(self).fold_ty_step(
                old(types)@,
                x,
                ty_result(arg_result(r)),
                *final(self),
                final(types)@,
            ) && (r matches Ok(a) ==> a@ is Type),
            !(arg@ is Type) ==> (r matches Ok(a) ==> !(a@ is Type)) && (old(self).keeps_consts() ==> (arg_result(r)
                == Ok::<ArgView, ConstEvalError>(arg@) && *final(self) == *old(self) && final(types)@ == old(types)@)),
        default_ensures
            final(types).wf(),
            extends(old(types)@, final(types)@),
            r matches Ok(a) ==> (a@ matches ArgView::Type(t) ==> final(types).valid(t)),
            arg@ matches ArgView::Type(x) ==> old(self).fold_ty_step(
                old(types)@,
                x,
                ty_result(arg_result(r)),
                *final(self),
                final(types)@,
            ) && (r matches Ok(a) ==> a@ is Type),
            !(arg@ is Type) ==> (r matches Ok(a) ==> !(a@ is Type)) && (old(self).keeps_consts() ==> (arg_result(r)
                == Ok::<ArgView, ConstEvalError>(arg@) && *final(self) == *old(self) && final(types)@ == old(types)@)),
            !(arg@ is Type) ==> (r matches Ok(a) && a@ == arg@ && final(types)@ == old(types)@ && *final(self)
                == *old(self)),
    {
        match arg {
            GenericArg::Type(ty) => {
                let folded = self.fold_ty(types, *ty)?;
                Ok(GenericArg::Type(folded))
            },
            GenericArg::Const(form) => {
                proof {
                    assert(types@.take(types@.len() as int) =~= types@);
                }
                Ok(GenericArg::Const(copy_normal_form(form)))
            },
            GenericArg::Error => {
                proof {
                    assert(types@.take(types@.len() as int) =~= types@);
                }
                Ok(GenericArg::Error)
            },
        }
    }
}

/// A copy of a normal form.
pub fn copy_normal_form(form: &NormalForm) -> (out: NormalForm)
    ensures
        out@ == form@,
{
    let mut terms: Vec<(crate::ty::DefId, i128)> = Vec::new();
    let mut i: usize = 0;
    while i < form.terms.len()
        invariant
            i <= form.terms.len(),
            terms@ == form.terms@.take(i as int),
        decreases form.terms.len() - i,
    {
        terms.push(form.terms[i]);
        assert(terms@ =~= form.terms@.take(i + 1));
        i = i + 1;
    }
    assert(terms@ =~= form.terms@);
    NormalForm { constant: form.constant, terms }
}

proof fn lemma_extends_trans(a: Seq<KindView>, b: Seq<KindView>, c: Seq<KindView>)
    requires
        extends(a, b),
        extends(b, c),
    ensures
        extends(a, c),
{
    assert(c.take(a.len() as int) =~= b.take(a.len() as int));
}

proof fn lemma_extends_refl(a: Seq<KindView>)
    ensures
        extends(a, a),
{
    assert(a.take(a.len() as int) =~= a);
}

/// The types among a list with one more argument.
proof fn lemma_arg_types_push(args: Seq<ArgView>, a: ArgView)
    ensures
        arg_types(args.push(a)) == match a {
            ArgView::Type(t) => arg_types(args).push(t),
            _ => arg_types(args),
        },
{
    assert(args.push(a).drop_last() =~= args);
}

/// The type operands of a kind that [`fold_children`] hands to `fold_ty`, in
/// order: a borrow's or a nullable's inner type, a tuple's elements, a
/// closure's parameters then its return type. A kind with arguments has its
/// arguments folded instead, by `fold_arg`.
pub open spec fn type_parts(k: KindView) -> Seq<Ty> {
    match k {
        KindView::Named { .. } => seq![],
        KindView::Object { .. } => seq![],
        _ => crate::ty::operands(k),
    }
}

/// The arguments of a kind that has them.
pub open spec fn arg_parts(k: KindView) -> Seq<ArgView> {
    match k {
        KindView::Named { args, .. } => args,
        KindView::Object { args, .. } => args,
        _ => seq![],
    }
}

/// A kind with its parts replaced: type operands by `f`, in the order of
/// [`type_parts`], and arguments by `a`.
pub open spec fn with_parts(k: KindView, f: Seq<Ty>, a: Seq<ArgView>) -> KindView {
    match k {
        KindView::Borrowed { mutable, .. } => KindView::Borrowed { mutable, inner: f[0] },
        KindView::Nullable(_) => KindView::Nullable(f[0]),
        KindView::Tuple(_) => KindView::Tuple(f),
        KindView::Closure { params, .. } => KindView::Closure {
            params: f.take(params.len() as int),
            ret: f[params.len() as int],
        },
        KindView::Named { def, .. } => KindView::Named { def, args: a },
        KindView::Object { interface, .. } => KindView::Object { interface, args: a },
        _ => k,
    }
}

/// `t` is `ty` of the table `before` rebuilt from new parts, in the table
/// `after`: `ty` itself when no part moved; for a nullable whose new inner
/// type is already nullable, that inner type, since a nullable of a
/// nullable is the nullable; otherwise a type whose kind is `ty`'s with the
/// new parts.
pub open spec fn rebuilt(
    before: Seq<KindView>,
    ty: Ty,
    f: Seq<Ty>,
    a: Seq<ArgView>,
    after: Seq<KindView>,
    t: Ty,
) -> bool {
    let k = before[ty.0 as int];
    if f == type_parts(k) && a == arg_parts(k) {
        t == ty
    } else if k is Nullable && after[f[0].0 as int] is Nullable {
        t == f[0]
    } else {
        after[t.0 as int] == with_parts(k, f, a)
    }
}

/// The parts of a kind, in the order [`fold_children`] folds them: the type
/// operands of [`type_parts`], each as a type argument, or the arguments of a
/// kind that has them.
pub open spec fn fold_parts(k: KindView) -> Seq<ArgView> {
    match k {
        KindView::Named { args, .. } => args,
        KindView::Object { args, .. } => args,
        _ => type_parts(k).map_values(|t: Ty| ArgView::Type(t)),
    }
}

/// The types among folded parts, in order.
pub open spec fn types_of(parts: Seq<ArgView>) -> Seq<Ty> {
    parts.map_values(
        |a: ArgView|
            match a {
                ArgView::Type(t) => t,
                _ => Ty(0),
            },
    )
}

/// What each outcome gave, when it gave something.
pub open spec fn ok_values(outs: Seq<Result<ArgView, ConstEvalError>>) -> Seq<ArgView> {
    outs.map_values(
        |o: Result<ArgView, ConstEvalError>|
            match o {
                Ok(a) => a,
                Err(_) => ArgView::Error,
            },
    )
}

/// `t` is `ty` rebuilt from the values its parts were folded to.
pub open spec fn rebuilt_parts(before: Seq<KindView>, ty: Ty, vals: Seq<ArgView>, after: Seq<KindView>, t: Ty) -> bool {
    let k = before[ty.0 as int];
    if k is Named || k is Object {
        rebuilt(before, ty, seq![], vals, after, t)
    } else {
        rebuilt(before, ty, types_of(vals), seq![], after, t)
    }
}

/// The calls a fold made, one per part in order: the folder and the table
/// before each call and after the last, and what each call gave.
pub ghost struct FoldTrace<F> {
    pub states: Seq<F>,
    pub tables: Seq<Seq<KindView>>,
    pub outs: Seq<Result<ArgView, ConstEvalError>>,
}

/// The trace starts at `s0` over `k0`; call `i` folded `parts[i]` from the
/// state the call before left ([`part_step`]); every call but the last
/// succeeded; and the calls stopped short of the last part only on a failure.
pub open spec fn trace_ok<F: TypeFolder>(tr: FoldTrace<F>, s0: F, k0: Seq<KindView>, parts: Seq<ArgView>) -> bool {
    &&& trace_so_far(tr, s0, k0, parts)
    &&& tr.outs.len() < parts.len() ==> failed(tr.outs)
}

/// [`trace_ok`] of a fold still under way: the calls so far, in order, each
/// from the state the one before left, all but the last successful.
pub open spec fn trace_so_far<F: TypeFolder>(tr: FoldTrace<F>, s0: F, k0: Seq<KindView>, parts: Seq<ArgView>) -> bool {
    &&& tr.states.len() == tr.outs.len() + 1
    &&& tr.tables.len() == tr.outs.len() + 1
    &&& tr.outs.len() <= parts.len()
    &&& tr.states[0] == s0
    &&& tr.tables[0] == k0
    &&& forall|i: int|
        0 <= i < tr.outs.len() ==> #[trigger] part_step(
            tr.states[i],
            tr.tables[i],
            parts[i],
            tr.outs[i],
            tr.states[i + 1],
            tr.tables[i + 1],
        )
    &&& forall|i: int| 0 <= i < tr.outs.len() - 1 ==> #[trigger] tr.outs[i] is Ok
}

/// Under a folder whose every `fold_ty` gives back its type and which keeps
/// consts, no call fails and every part comes back as it went in.
proof fn lemma_identity_trace<F: TypeFolder>(tr: FoldTrace<F>, s0: F, k0: Seq<KindView>, parts: Seq<ArgView>)
    requires
        trace_so_far(tr, s0, k0, parts),
        forall|s: F, before: Seq<KindView>, x: Ty, out: Result<Ty, ConstEvalError>, after: F, ta: Seq<KindView>|
            #[trigger] s.fold_ty_step(before, x, out, after, ta) ==> out == Ok::<Ty, ConstEvalError>(x),
        forall|s: F| #[trigger] s.keeps_consts(),
    ensures
        !failed(tr.outs),
        forall|i: int| 0 <= i < tr.outs.len() ==> #[trigger] ok_values(tr.outs)[i] == parts[i],
{
    assert forall|i: int| 0 <= i < tr.outs.len() implies #[trigger] tr.outs[i] == Ok::<ArgView, ConstEvalError>(
        parts[i],
    ) by {
        assert(part_step(tr.states[i], tr.tables[i], parts[i], tr.outs[i], tr.states[i + 1], tr.tables[i + 1]));
        if let ArgView::Type(x) = parts[i] {
            assert(tr.states[i].fold_ty_step(tr.tables[i], x, ty_result(tr.outs[i]), tr.states[i + 1], tr.tables[i + 1]));
        } else {
            assert(tr.states[i].keeps_consts());
        }
    }
    if tr.outs.len() > 0 {
        assert(tr.outs[tr.outs.len() - 1] == Ok::<ArgView, ConstEvalError>(parts[tr.outs.len() - 1]));
    }
    assert forall|i: int| 0 <= i < tr.outs.len() implies #[trigger] ok_values(tr.outs)[i] == parts[i] by {
        assert(tr.outs[i] == Ok::<ArgView, ConstEvalError>(parts[i]));
    }
}

/// The last call failed.
pub open spec fn failed(outs: Seq<Result<ArgView, ConstEvalError>>) -> bool {
    outs.len() > 0 && outs.last() is Err
}

/// What a fold comes to, given its trace: the last call's error when it
/// failed, and otherwise `ty` rebuilt from what the calls gave, in the
/// table the fold ends with.
pub open spec fn fold_outcome<F: TypeFolder>(
    before: Seq<KindView>,
    ty: Ty,
    tr: FoldTrace<F>,
    after: Seq<KindView>,
    r: Result<Ty, ConstEvalError>,
) -> bool {
    if failed(tr.outs) {
        tr.outs.last() matches Err(e) && r == Err::<Ty, ConstEvalError>(e) && after == tr.tables.last()
    } else {
        r matches Ok(t) && rebuilt_parts(before, ty, ok_values(tr.outs), after, t)
    }
}

/// Whether two lists of types are the same.
fn tys_eq(a: &Vec<Ty>, b: &Vec<Ty>) -> (r: bool)
    ensures
        r == (a@ == b@),
{
    if a.len() != b.len() {
        return false;
    }
    let mut i: usize = 0;
    while i < a.len()
        invariant
            a@.len() == b@.len(),
            i <= a@.len(),
            forall|k: int| 0 <= k < i ==> a@[k] == b@[k],
        decreases a@.len() - i,
    {
        if a[i] != b[i] {
            return false;
        }
        i = i + 1;
    }
    assert(a@ =~= b@);
    true
}

/// Whether two argument lists are the same.
fn args_eq(a: &Vec<GenericArg>, b: &Vec<GenericArg>) -> (r: bool)
    ensures
        r == (args_view(a@) == args_view(b@)),
{
    if a.len() != b.len() {
        return false;
    }
    let mut i: usize = 0;
    while i < a.len()
        invariant
            a@.len() == b@.len(),
            i <= a@.len(),
            forall|k: int| 0 <= k < i ==> a@[k]@ == b@[k]@,
        decreases a@.len() - i,
    {
        if !crate::ty::arg_eq(&a[i], &b[i]) {
            assert(args_view(a@)[i as int] != args_view(b@)[i as int]);
            return false;
        }
        i = i + 1;
    }
    assert(args_view(a@) =~= args_view(b@));
    true
}

/// Puts a type back together from new parts (see [`rebuilt`]): the type
/// itself when nothing moved, and otherwise the type of the same constructor
/// over the new parts, interned. A nullable goes through
/// [`Types::nullable`], so `T?` with `T` replaced by `U?` is `U?`.
pub fn rebuild(types: &mut Types, ty: Ty, folded: Vec<Ty>, args: Vec<GenericArg>) -> (t: Ty)
    requires
        old(types).wf(),
        old(types).valid(ty),
        folded@.len() == type_parts(old(types)@[ty.0 as int]).len(),
        args@.len() == arg_parts(old(types)@[ty.0 as int]).len(),
        forall|i: int| 0 <= i < folded@.len() ==> old(types).valid(#[trigger] folded@[i]),
        args_valid(old(types)@, args_view(args@)),
    ensures
        final(types).wf(),
        extends(old(types)@, final(types)@),
        final(types).valid(t),
        rebuilt(old(types)@, ty, folded@, args_view(args@), final(types)@, t),
        folded@ == type_parts(old(types)@[ty.0 as int]) && args_view(args@) == arg_parts(old(types)@[ty.0 as int])
            ==> final(types)@ == old(types)@,
{
    let ghost start = types@;
    let ghost k = start[ty.0 as int];
    proof {
        lemma_extends_refl(start);
    }
    match types.kind(ty) {
        TyKind::Borrowed { mutable, inner } => {
            let (mutable, inner) = (*mutable, *inner);
            assert(type_parts(k) == seq![inner]);
            if folded[0] == inner {
                assert(folded@ =~= type_parts(k));
                assert(args_view(args@) =~= arg_parts(k));
                return ty;
            }
            types.borrowed(mutable, folded[0])
        },
        TyKind::Nullable(inner) => {
            let inner = *inner;
            assert(type_parts(k) == seq![inner]);
            if folded[0] == inner {
                assert(folded@ =~= type_parts(k));
                assert(args_view(args@) =~= arg_parts(k));
                return ty;
            }
            types.nullable(folded[0])
        },
        TyKind::Tuple(elements) => {
            let elements = copy_tys(elements);
            if tys_eq(&folded, &elements) {
                assert(args_view(args@) =~= arg_parts(k));
                return ty;
            }
            types.tuple(folded)
        },
        TyKind::Closure { params, ret } => {
            let mut ops = copy_tys(params);
            let n = ops.len();
            ops.push(*ret);
            if tys_eq(&folded, &ops) {
                assert(args_view(args@) =~= arg_parts(k));
                return ty;
            }
            let mut new_params: Vec<Ty> = Vec::new();
            let mut i: usize = 0;
            while i < n
                invariant
                    i <= n,
                    n < folded@.len(),
                    new_params@ == folded@.take(i as int),
                decreases n - i,
            {
                new_params.push(folded[i]);
                assert(new_params@ =~= folded@.take(i + 1));
                i = i + 1;
            }
            types.closure(new_params, folded[n])
        },
        TyKind::Named { def, args: old_args } => {
            let def = *def;
            let old_args = copy_args(old_args);
            if args_eq(&args, &old_args) {
                assert(folded@ =~= type_parts(k));
                return ty;
            }
            types.named(def, args)
        },
        TyKind::Object { interface, args: old_args } => {
            let interface = *interface;
            let old_args = copy_args(old_args);
            if args_eq(&args, &old_args) {
                assert(folded@ =~= type_parts(k));
                return ty;
            }
            types.object(interface, args)
        },
        _ => {
            assert(folded@ =~= type_parts(k));
            assert(args_view(args@) =~= arg_parts(k));
            ty
        },
    }
}

/// The structural recursion: fold every part and rebuild.
///
/// Each part, in the order of [`fold_parts`], goes to the folder — a type
/// operand to `fold_ty`, an argument to `fold_arg` — in the state the call
/// before left it; the first failure is the answer and no later part is
/// folded. What came back is put together by [`rebuild`]: `ty` itself when
/// nothing moved, so a leaf — the error type, unit, a parameter, a `Self` —
/// is always itself, with the folder untouched, and a folder that changes no
/// type and keeps consts gives back the very type it was handed.
pub fn fold_children<F: TypeFolder>(folder: &mut F, types: &mut Types, ty: Ty) -> (r: Result<
    Ty,
    ConstEvalError,
>)
    requires
        old(types).wf(),
        old(types).valid(ty),
    ensures
        final(types).wf(),
        extends(old(types)@, final(types)@),
        r matches Ok(t) ==> final(types).valid(t),
        r matches Ok(t) ==> same_shape(old(types)@[ty.0 as int], final(types)@[t.0 as int]),
        exists|tr: FoldTrace<F>|
            #[trigger] trace_ok(tr, *old(folder), old(types)@, fold_parts(old(types)@[ty.0 as int]))
                && *final(folder) == tr.states.last() && fold_outcome(old(types)@, ty, tr, final(types)@, r),
        is_leaf(old(types)@[ty.0 as int]) ==> r == Ok::<Ty, ConstEvalError>(ty) && final(types)@
            == old(types)@ && *final(folder) == *old(folder),
        (forall|s: F, before: Seq<KindView>, x: Ty, out: Result<Ty, ConstEvalError>, after: F, ta: Seq<KindView>|
            #[trigger] s.fold_ty_step(before, x, out, after, ta) ==> out == Ok::<Ty, ConstEvalError>(x))
            && (forall|s: F| #[trigger] s.keeps_consts()) ==> r == Ok::<Ty, ConstEvalError>(ty),
{
    let ghost start = types@;
    let ghost k = start[ty.0 as int];
    let ghost s0 = *folder;
    proof {
        lemma_extends_refl(start);
        assert(crate::ty::kind_below(k, ty.0 as int));
    }
    let has_args = match types.kind(ty) {
        TyKind::Named { .. } | TyKind::Object { .. } => true,
        _ => false,
    };
    let mut parts: Vec<Ty> = Vec::new();
    let mut old_args: Vec<GenericArg> = Vec::new();
    match types.kind(ty) {
        TyKind::Borrowed { inner, .. } | TyKind::Nullable(inner) => {
            parts.push(*inner);
            proof {
                assert(crate::ty::operands(k)[0] == *inner);
                assert(parts@ =~= type_parts(k));
            }
        },
        TyKind::Tuple(elements) => {
            parts = copy_tys(elements);
            assert(parts@ == type_parts(k));
        },
        TyKind::Closure { params, ret } => {
            parts = copy_tys(params);
            parts.push(*ret);
            proof {
                assert(parts@ =~= crate::ty::operands(k));
            }
        },
        TyKind::Named { args, .. } | TyKind::Object { args, .. } => {
            old_args = copy_args(args);
            proof {
                assert(crate::ty::operands(k) == arg_types(args_view(old_args@)));
            }
        },
        _ => {
            assert(parts@ =~= type_parts(k));
        },
    }
    proof {
        assert forall|i: int| 0 <= i < parts@.len() implies start.len() > (#[trigger] parts@[i]).0 by {
            if !has_args {
                assert(parts@[i] == crate::ty::operands(k)[i]);
            }
        }
    }
    let ghost fp = fold_parts(k);
    let mut folded: Vec<Ty> = Vec::new();
    let mut new_args: Vec<GenericArg> = Vec::new();
    let ghost mut trace: FoldTrace<F> = FoldTrace { states: seq![], tables: seq![], outs: seq![] };
    if has_args {
        proof {
            assert(fp == args_view(old_args@));
        }
        let (res, Ghost(tr)) = fold_args(folder, types, &old_args);
        proof {
            trace = tr;
        }
        match res {
            Ok(a) => {
                new_args = a;
            },
            Err(e) => {
                proof {
                    if (forall|s: F, before: Seq<KindView>, x: Ty, out: Result<Ty, ConstEvalError>, after: F, ta: Seq<KindView>|
                        #[trigger] s.fold_ty_step(before, x, out, after, ta) ==> out == Ok::<Ty, ConstEvalError>(x))
                        && (forall|s: F| #[trigger] s.keeps_consts()) {
                        lemma_identity_trace(trace, s0, start, fp);
                    }
                }
                return Err(e);
            },
        }
    } else {
        proof {
            assert(parts@.map_values(|t: Ty| ArgView::Type(t)) =~= fp);
        }
        let (res, Ghost(tr)) = fold_list(folder, types, &parts);
        proof {
            trace = tr;
        }
        match res {
            Ok(f) => {
                folded = f;
            },
            Err(e) => {
                proof {
                    if (forall|s: F, before: Seq<KindView>, x: Ty, out: Result<Ty, ConstEvalError>, after: F, ta: Seq<KindView>|
                        #[trigger] s.fold_ty_step(before, x, out, after, ta) ==> out == Ok::<Ty, ConstEvalError>(x))
                        && (forall|s: F| #[trigger] s.keeps_consts()) {
                        lemma_identity_trace(trace, s0, start, fp);
                    }
                }
                return Err(e);
            },
        }
    }
    let ghost mid = types@;
    let ghost vals = ok_values(trace.outs);
    proof {
        if has_args {
            assert(folded@ =~= type_parts(k));
        } else {
            assert(args_view(new_args@) =~= arg_parts(k));
        }
    }
    let t = rebuild(types, ty, folded, new_args);
    proof {
        if is_leaf(k) {
            assert(fp.len() == 0);
            assert(trace.outs.len() == 0);
            assert(folded@ =~= type_parts(k));
            assert(args_view(new_args@) =~= arg_parts(k));
        }
        lemma_extends_trans(start, mid, types@);
        assert(fold_outcome(start, ty, trace, types@, Ok::<Ty, ConstEvalError>(t)));
        if folded@ != type_parts(k) || args_view(new_args@) != arg_parts(k) {
            if k is Nullable && types@[folded@[0].0 as int] is Nullable {
                assert(same_shape(k, types@[t.0 as int]));
            }
        }
        if (forall|s: F, before: Seq<KindView>, x: Ty, out: Result<Ty, ConstEvalError>, after: F, ta: Seq<KindView>|
            #[trigger] s.fold_ty_step(before, x, out, after, ta) ==> out == Ok::<Ty, ConstEvalError>(x))
            && (forall|s: F| #[trigger] s.keeps_consts()) {
            lemma_identity_trace(trace, s0, start, fp);
            assert(vals =~= fp);
            if has_args {
                assert(args_view(new_args@) =~= arg_parts(k));
            } else {
                assert(folded@ =~= type_parts(k));
            }
        }
    }
    Ok(t)
}

/// Folds a list of types in order, one call to `fold_ty` each, stopping at
/// the first failure; the trace records the calls.
fn fold_list<F: TypeFolder>(folder: &mut F, types: &mut Types, tys: &Vec<Ty>) -> (res: (
    Result<Vec<Ty>, ConstEvalError>,
    Ghost<FoldTrace<F>>,
))
    requires
        old(types).wf(),
        forall|i: int| 0 <= i < tys@.len() ==> old(types).valid(#[trigger] tys@[i]),
    ensures
        final(types).wf(),
        extends(old(types)@, final(types)@),
        trace_ok(res.1@, *old(folder), old(types)@, tys@.map_values(|t: Ty| ArgView::Type(t))),
        *final(folder) == res.1@.states.last(),
        final(types)@ == res.1@.tables.last(),
        res.0 is Err <==> failed(res.1@.outs),
        res.0 matches Err(e) ==> res.1@.outs.last() == Err::<ArgView, ConstEvalError>(e),
        res.0 matches Ok(folded) ==> {
            &&& res.1@.outs.len() == tys@.len()
            &&& folded@ == types_of(ok_values(res.1@.outs))
            &&& forall|i: int| 0 <= i < folded@.len() ==> final(types).valid(#[trigger] folded@[i])
        },
{
    let ghost start = types@;
    let ghost parts = tys@.map_values(|t: Ty| ArgView::Type(t));
    proof {
        lemma_extends_refl(start);
    }
    let ghost mut tr: FoldTrace<F> = FoldTrace { states: seq![*folder], tables: seq![types@], outs: seq![] };
    let mut folded: Vec<Ty> = Vec::new();
    let mut i: usize = 0;
    while i < tys.len()
        invariant
            start == old(types)@,
            types.wf(),
            extends(start, types@),
            forall|k: int| 0 <= k < tys@.len() ==> (#[trigger] tys@[k]).0 < start.len(),
            i <= tys.len(),
            parts == tys@.map_values(|t: Ty| ArgView::Type(t)),
            tr.outs.len() == i,
            trace_so_far(tr, *old(folder), start, parts),
            forall|k: int| 0 <= k < i ==> #[trigger] tr.outs[k] is Ok,
            tr.states.last() == *folder,
            tr.tables.last() == types@,
            folded@ == types_of(ok_values(tr.outs)),
            forall|k: int| 0 <= k < i ==> types.valid(#[trigger] folded@[k]),
        decreases tys.len() - i,
    {
        let ghost before = types@;
        let ghost state = *folder;
        let res = folder.fold_ty(types, tys[i]);
        let ghost out: Result<ArgView, ConstEvalError> = match res {
            Ok(t) => Ok(ArgView::Type(t)),
            Err(e) => Err(e),
        };
        proof {
            lemma_extends_trans(start, before, types@);
            let prev = tr;
            tr = FoldTrace { states: prev.states.push(*folder), tables: prev.tables.push(types@), outs: prev.outs.push(out) };
            assert(parts[i as int] == ArgView::Type(tys@[i as int]));
            assert(ty_result(out) == res);
            assert forall|k: int| 0 <= k < tr.outs.len() implies #[trigger] part_step(
                tr.states[k],
                tr.tables[k],
                parts[k],
                tr.outs[k],
                tr.states[k + 1],
                tr.tables[k + 1],
            ) by {
                if k < i {
                    assert(tr.states[k] == prev.states[k] && tr.states[k + 1] == prev.states[k + 1]);
                    assert(tr.tables[k] == prev.tables[k] && tr.tables[k + 1] == prev.tables[k + 1]);
                    assert(tr.outs[k] == prev.outs[k]);
                    assert(part_step(prev.states[k], prev.tables[k], parts[k], prev.outs[k], prev.states[k + 1], prev.tables[k + 1]));
                } else {
                    assert(tr.states[k] == state);
                    assert(tr.tables[k] == before);
                }
            }
            assert forall|k: int| 0 <= k < tr.outs.len() - 1 implies #[trigger] tr.outs[k] is Ok by {
                assert(tr.outs[k] == prev.outs[k]);
            }
        }
        match res {
            Ok(next) => {
                let ghost prev_folded = folded@;
                folded.push(next);
                proof {
                    assert(ok_values(tr.outs) =~= ok_values(tr.outs.drop_last()).push(ArgView::Type(next)));
                    assert(tr.outs.drop_last() =~= tr.outs.take(i as int));
                    assert(folded@ =~= types_of(ok_values(tr.outs)));
                    assert forall|k: int| 0 <= k < i + 1 implies #[trigger] tr.outs[k] is Ok by {}
                }
            },
            Err(e) => {
                proof {
                    assert(failed(tr.outs));
                }
                return (Err(e), Ghost(tr));
            },
        }
        i = i + 1;
    }
    proof {
        assert(!failed(tr.outs)) by {
            if tr.outs.len() > 0 {
                assert(tr.outs[tr.outs.len() - 1] is Ok);
            }
        }
    }
    (Ok(folded), Ghost(tr))
}

/// Folds an argument list in order, one call to `fold_arg` each, stopping
/// at the first failure; the trace records the calls.
fn fold_args<F: TypeFolder>(folder: &mut F, types: &mut Types, args: &Vec<GenericArg>) -> (res: (
    Result<Vec<GenericArg>, ConstEvalError>,
    Ghost<FoldTrace<F>>,
))
    requires
        old(types).wf(),
        args_valid(old(types)@, args_view(args@)),
    ensures
        final(types).wf(),
        extends(old(types)@, final(types)@),
        trace_ok(res.1@, *old(folder), old(types)@, args_view(args@)),
        *final(folder) == res.1@.states.last(),
        final(types)@ == res.1@.tables.last(),
        res.0 is Err <==> failed(res.1@.outs),
        res.0 matches Err(e) ==> res.1@.outs.last() == Err::<ArgView, ConstEvalError>(e),
        res.0 matches Ok(folded) ==> {
            &&& res.1@.outs.len() == args@.len()
            &&& args_view(folded@) == ok_values(res.1@.outs)
            &&& args_valid(final(types)@, args_view(folded@))
        },
{
    let ghost start = types@;
    let ghost parts = args_view(args@);
    proof {
        lemma_extends_refl(start);
    }
    let ghost mut tr: FoldTrace<F> = FoldTrace { states: seq![*folder], tables: seq![types@], outs: seq![] };
    let mut folded: Vec<GenericArg> = Vec::new();
    let mut i: usize = 0;
    assert(arg_types(args_view(folded@)) =~= Seq::<Ty>::empty());
    while i < args.len()
        invariant
            start == old(types)@,
            types.wf(),
            extends(start, types@),
            args_valid(start, parts),
            parts == args_view(args@),
            i <= args.len(),
            tr.outs.len() == i,
            trace_so_far(tr, *old(folder), start, parts),
            forall|k: int| 0 <= k < i ==> #[trigger] tr.outs[k] is Ok,
            tr.states.last() == *folder,
            tr.tables.last() == types@,
            args_view(folded@) == ok_values(tr.outs),
            args_valid(types@, args_view(folded@)),
        decreases args.len() - i,
    {
        let ghost before = types@;
        let ghost state = *folder;
        proof {
            crate::ty::lemma_arg_type_valid(parts, i as int, start.len() as int);
        }
        let res = folder.fold_arg(types, &args[i]);
        let ghost out = arg_result(res);
        proof {
            lemma_extends_trans(start, before, types@);
            let prev = tr;
            tr = FoldTrace { states: prev.states.push(*folder), tables: prev.tables.push(types@), outs: prev.outs.push(out) };
            assert(parts[i as int] == args@[i as int]@);
            assert forall|k: int| 0 <= k < tr.outs.len() implies #[trigger] part_step(
                tr.states[k],
                tr.tables[k],
                parts[k],
                tr.outs[k],
                tr.states[k + 1],
                tr.tables[k + 1],
            ) by {
                if k < i {
                    assert(tr.states[k] == prev.states[k] && tr.states[k + 1] == prev.states[k + 1]);
                    assert(tr.tables[k] == prev.tables[k] && tr.tables[k + 1] == prev.tables[k + 1]);
                    assert(tr.outs[k] == prev.outs[k]);
                    assert(part_step(prev.states[k], prev.tables[k], parts[k], prev.outs[k], prev.states[k + 1], prev.tables[k + 1]));
                } else {
                    assert(tr.states[k] == state);
                    assert(tr.tables[k] == before);
                }
            }
            assert forall|k: int| 0 <= k < tr.outs.len() - 1 implies #[trigger] tr.outs[k] is Ok by {
                assert(tr.outs[k] == prev.outs[k]);
            }
        }
        match res {
            Ok(next) => {
                let ghost prev_view = args_view(folded@);
                let ghost next_view = next@;
                folded.push(next);
                proof {
                    assert(args_view(folded@) =~= prev_view.push(next_view));
                    assert(ok_values(tr.outs) =~= ok_values(tr.outs.drop_last()).push(next_view));
                    assert(tr.outs.drop_last() =~= tr.outs.take(i as int));
                    lemma_arg_types_push(prev_view, next_view);
                    assert forall|k: int| 0 <= k < arg_types(args_view(folded@)).len() implies (#[trigger] arg_types(
                        args_view(folded@),
                    )[k]).0 < types@.len() by {
                        if k < arg_types(prev_view).len() {
                            assert(arg_types(args_view(folded@))[k] == arg_types(prev_view)[k]);
                            assert(arg_types(prev_view)[k].0 < before.len());
                        }
                    }
                    assert forall|k: int| 0 <= k < i + 1 implies #[trigger] tr.outs[k] is Ok by {}
                }
            },
            Err(e) => {
                proof {
                    assert(failed(tr.outs));
                }
                return (Err(e), Ghost(tr));
            },
        }
        i = i + 1;
    }
    proof {
        assert(!failed(tr.outs)) by {
            if tr.outs.len() > 0 {
                assert(tr.outs[tr.outs.len() - 1] is Ok);
            }
        }
    }
    (Ok(folded), Ghost(tr))
}

/// A copy of a list of types.
fn copy_tys(tys: &Vec<Ty>) -> (out: Vec<Ty>)
    ensures
        out@ == tys@,
{
    let mut out: Vec<Ty> = Vec::new();
    let mut i: usize = 0;
    while i < tys.len()
        invariant
            i <= tys.len(),
            out@ == tys@.take(i as int),
        decreases tys.len() - i,
    {
        out.push(tys[i]);
        assert(out@ =~= tys@.take(i + 1));
        i = i + 1;
    }
    assert(out@ =~= tys@);
    out
}

/// A copy of one argument.
pub fn copy_arg(arg: &GenericArg) -> (out: GenericArg)
    ensures
        out@ == arg@,
{
    match arg {
        GenericArg::Type(t) => GenericArg::Type(*t),
        GenericArg::Const(form) => GenericArg::Const(copy_normal_form(form)),
        GenericArg::Error => GenericArg::Error,
    }
}

/// A copy of an argument list.
fn copy_args(args: &Vec<GenericArg>) -> (out: Vec<GenericArg>)
    ensures
        args_view(out@) == args_view(args@),
{
    let mut out: Vec<GenericArg> = Vec::new();
    let mut i: usize = 0;
    while i < args.len()
        invariant
            i <= args.len(),
            args_view(out@) == args_view(args@).take(i as int),
        decreases args.len() - i,
    {
        let next = copy_arg(&args[i]);
        let ghost prev = out@;
        out.push(next);
        assert(args_view(out@) =~= args_view(args@).take(i + 1)) by {
            assert(args_view(out@) =~= args_view(prev).push(out@[i as int]@));
        }
        i = i + 1;
    }
    assert(args_view(args@).take(i as int) =~= args_view(args@));
    out
}

} // verus!
