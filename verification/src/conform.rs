//! Whether an `implements` block conforms to the interface it names: which
//! declared methods it is missing, which it writes and how their signatures
//! disagree with the declaration, which of its methods the interface never
//! declared, and the one position the comparison leaves alone.

use vstd::prelude::*;

use crate::assign::{DefKind, Definition};
use crate::codes::{MISMATCHED_IMPLEMENTATION, NOT_AN_INTERFACE_METHOD, UNIMPLEMENTED_INTERFACE_METHOD};
use crate::diagnostics::{add_note, error_at, error_view, with_note, Diagnostic, DiagnosticView, Label, LabelView};
use crate::infer::Span;
use crate::items::{definition_of, find_definition, interface_arguments_of, pairs_view, Declarations, Signature};
use crate::text::{chars_of, decimal, push_decimal, push_str, str_eq};
use crate::ty::{arg_types, args_view, mentions_error, operands, ArgView, DefId, GenericArg, KindView, Ty, TyKind, Types};

verus! {

/// Whether the type at `t` has a `Self.Item` standing anywhere in it.
pub open spec fn mentions_self_assoc(kinds: Seq<KindView>, t: int) -> bool
    decreases t + 1, 0int,
{
    if t < 0 || t >= kinds.len() {
        false
    } else if kinds[t] is SelfAssoc {
        true
    } else {
        any_mentions_self_assoc(kinds, operands(kinds[t]), 0, t)
    }
}

/// Whether one of `tys[i..]`, each below `bound`, has a `Self.Item` in it.
pub open spec fn any_mentions_self_assoc(kinds: Seq<KindView>, tys: Seq<Ty>, i: int, bound: int) -> bool
    decreases bound, tys.len() - i,
{
    if i < 0 || i >= tys.len() {
        false
    } else if tys[i].0 < bound && mentions_self_assoc(kinds, tys[i].0 as int) {
        true
    } else {
        any_mentions_self_assoc(kinds, tys, i + 1, bound)
    }
}

/// Whether the substitution left a `Self.Item` standing in this position: a
/// declared position the implementation did not answer, which is not compared.
pub fn unanswered(types: &Types, ty: Ty) -> (r: bool)
    requires
        types.wf(),
        types.valid(ty),
    ensures
        r == mentions_self_assoc(types@, ty.0 as int),
    decreases ty.0 + 1, 0nat,
{
    let ghost kinds = types@;
    proof {
        assert(crate::ty::kind_below(kinds[ty.0 as int], ty.0 as int));
    }
    match types.kind(ty) {
        TyKind::SelfAssoc { .. } => true,
        TyKind::Borrowed { inner, .. } | TyKind::Nullable(inner) => {
            let inner = *inner;
            let ghost ops = operands(kinds[ty.0 as int]);
            assert(ops[0] == inner);
            let r = unanswered(types, inner);
            assert(any_mentions_self_assoc(kinds, ops, 1, ty.0 as int) == false);
            r
        },
        TyKind::Tuple(elements) => {
            assert(operands(kinds[ty.0 as int]) == elements@);
            assert forall|k: int| 0 <= k < elements@.len() implies (#[trigger] elements@[k]).0
                < ty.0 by {
                assert(operands(kinds[ty.0 as int])[k] == elements@[k]);
            }
            any_unanswered(types, elements, 0, ty)
        },
        TyKind::Closure { params, ret } => {
            let ghost ops = operands(kinds[ty.0 as int]);
            proof {
                assert(ops =~= params@.push(*ret));
            }
            assert forall|k: int| 0 <= k < params@.len() implies (#[trigger] params@[k]).0 < ty.0 by {
                assert(ops[k] == params@[k]);
            }
            assert(ops[params@.len() as int] == *ret);
            if any_unanswered(types, params, 0, ty) {
                proof {
                    lemma_any_prefix(kinds, params@, ops, 0, ty.0 as int);
                }
                true
            } else {
                let r = unanswered(types, *ret);
                proof {
                    lemma_any_split(kinds, params@, *ret, 0, ty.0 as int);
                }
                r
            }
        },
        TyKind::Named { args, .. } | TyKind::Object { args, .. } => {
            let ghost ops = operands(kinds[ty.0 as int]);
            assert(ops == arg_types(args_view(args@)));
            assert(args_view(args@).take(args@.len() as int) =~= args_view(args@));
            assert forall|k: int|
                0 <= k < arg_types(args_view(args@)).len() implies (#[trigger] arg_types(
                args_view(args@),
            )[k]).0 < ty.0 by {
                assert(ops[k] == arg_types(args_view(args@))[k]);
            }
            args_unanswered(types, args, args.len(), ty)
        },
        _ => {
            assert(operands(kinds[ty.0 as int]) =~= Seq::<Ty>::empty());
            false
        },
    }
}

fn any_unanswered(types: &Types, tys: &Vec<Ty>, i: usize, bound: Ty) -> (r: bool)
    requires
        types.wf(),
        types.valid(bound),
        i <= tys@.len(),
        forall|k: int| 0 <= k < tys@.len() ==> (#[trigger] tys@[k]).0 < bound.0,
    ensures
        r == any_mentions_self_assoc(types@, tys@, i as int, bound.0 as int),
    decreases bound.0, tys@.len() - i,
{
    if i >= tys.len() {
        return false;
    }
    if unanswered(types, tys[i]) {
        return true;
    }
    any_unanswered(types, tys, i + 1, bound)
}

fn args_unanswered(types: &Types, args: &Vec<GenericArg>, n: usize, bound: Ty) -> (r: bool)
    requires
        types.wf(),
        types.valid(bound),
        n <= args@.len(),
        forall|k: int|
            0 <= k < arg_types(args_view(args@)).len() ==> (#[trigger] arg_types(
                args_view(args@),
            )[k]).0 < bound.0,
    ensures
        r == any_mentions_self_assoc(
            types@,
            arg_types(args_view(args@).take(n as int)),
            0,
            bound.0 as int,
        ),
    decreases bound.0, n,
{
    let ghost all = args_view(args@);
    if n == 0 {
        assert(arg_types(all.take(0)) =~= Seq::<Ty>::empty());
        return false;
    }
    let ghost prefix = all.take(n - 1);
    proof {
        assert(all.take(n as int).drop_last() =~= prefix);
    }
    let before = args_unanswered(types, args, n - 1, bound);
    match &args[n - 1] {
        GenericArg::Type(t) => {
            let t = *t;
            proof {
                assert(arg_types(all.take(n as int)) == arg_types(prefix).push(t));
                crate::ty::lemma_arg_type_valid(all, n - 1, bound.0 as int);
                assert(all[n - 1] == ArgView::Type(t));
                lemma_any_split(types@, arg_types(prefix), t, 0, bound.0 as int);
            }
            if before {
                true
            } else {
                unanswered(types, t)
            }
        },
        _ => {
            assert(arg_types(all.take(n as int)) == arg_types(prefix));
            before
        },
    }
}

proof fn lemma_any_split(kinds: Seq<KindView>, tys: Seq<Ty>, t: Ty, i: int, bound: int)
    requires
        0 <= i <= tys.len(),
        t.0 < bound,
    ensures
        any_mentions_self_assoc(kinds, tys.push(t), i, bound) == (any_mentions_self_assoc(
            kinds,
            tys,
            i,
            bound,
        ) || mentions_self_assoc(kinds, t.0 as int)),
    decreases tys.len() - i,
{
    if i < tys.len() {
        assert(tys.push(t)[i] == tys[i]);
        lemma_any_split(kinds, tys, t, i + 1, bound);
    } else {
        assert(tys.push(t)[i] == t);
        assert(any_mentions_self_assoc(kinds, tys.push(t), i + 1, bound) == false);
    }
}

proof fn lemma_any_prefix(kinds: Seq<KindView>, tys: Seq<Ty>, whole: Seq<Ty>, i: int, bound: int)
    requires
        0 <= i <= tys.len() <= whole.len(),
        forall|k: int| 0 <= k < tys.len() ==> #[trigger] tys[k] == whole[k],
        any_mentions_self_assoc(kinds, tys, i, bound),
    ensures
        any_mentions_self_assoc(kinds, whole, i, bound),
    decreases tys.len() - i,
{
    if i < tys.len() {
        assert(tys[i] == whole[i]);
        if !(tys[i].0 < bound && mentions_self_assoc(kinds, tys[i].0 as int)) {
            lemma_any_prefix(kinds, tys, whole, i + 1, bound);
        }
    }
}


// ---------------------------------------------------------------------------
// Signatures compared
// ---------------------------------------------------------------------------

/// How a method takes its receiver.
#[derive(Debug, Clone, Copy, PartialEq, Eq, Structural)]
pub enum SelfKind {
    /// `self`.
    Shared,
    /// `mutable self`.
    Mutable,
    /// `self: Self`.
    Value,
}

/// How a receiver is written.
pub open spec fn recv_text(recv: Option<SelfKind>) -> Option<Seq<char>> {
    match recv {
        Some(SelfKind::Shared) => Some("self"@),
        Some(SelfKind::Mutable) => Some("mutable self"@),
        Some(SelfKind::Value) => Some("self: Self"@),
        None => None,
    }
}

/// How a receiver is written, which is the fix for half of the signature
/// mismatches.
pub fn render_recv(recv: Option<SelfKind>) -> (r: Option<&'static str>)
    ensures
        match r {
            Some(s) => recv_text(recv) == Some(s@),
            None => recv_text(recv) is None,
        },
{
    match recv {
        Some(SelfKind::Shared) => Some("self"),
        Some(SelfKind::Mutable) => Some("mutable self"),
        Some(SelfKind::Value) => Some("self: Self"),
        None => None,
    }
}

/// A signature with the interface's substitution already applied: the
/// method's own type parameters, its receiver, its parameters with their
/// types, and its return type.
#[derive(Debug)]
pub struct Shape {
    pub generics: Vec<DefId>,
    pub recv: Option<SelfKind>,
    pub params: Vec<(DefId, Ty)>,
    pub ret: Ty,
}

/// Every type of the shape is in the table.
pub open spec fn shape_valid(types: &Types, shape: Shape) -> bool {
    &&& types.valid(shape.ret)
    &&& forall|i: int| 0 <= i < shape.params@.len() ==> types.valid(#[trigger] shape.params@[i].1)
}

/// Some type of the shape mentions the error type.
pub open spec fn shape_erroneous(kinds: Seq<KindView>, shape: Shape) -> bool {
    ||| mentions_error(kinds, shape.ret.0 as int)
    ||| exists|i: int| 0 <= i < shape.params@.len() && mentions_error(kinds, #[trigger] shape.params@[i].1.0 as int)
}

impl Shape {
    /// Whether any type in it is the error type: an earlier pass reported,
    /// and the comparison says nothing.
    pub fn is_erroneous(&self, types: &Types) -> (r: bool)
        requires
            types.wf(),
            shape_valid(types, *self),
        ensures
            r == shape_erroneous(types@, *self),
    {
        if types.references_error(self.ret) {
            return true;
        }
        let mut k: usize = 0;
        while k < self.params.len()
            invariant
                types.wf(),
                shape_valid(types, *self),
                k <= self.params@.len(),
                forall|j: int| 0 <= j < k ==> !mentions_error(types@, #[trigger] self.params@[j].1.0 as int),
            decreases self.params@.len() - k,
        {
            if types.references_error(self.params[k].1) {
                return true;
            }
            k = k + 1;
        }
        false
    }
}

/// What two signatures disagree about first.
#[derive(Debug, Clone, Copy, PartialEq, Eq, Structural)]
pub enum Disagreement {
    Generics,
    Receiver,
    Arity,
    /// The parameter at this position, counting from zero.
    Param(usize),
    Return,
}

/// The first parameter from `i` on whose declared type differs from the
/// written one and is a position the implementation answered.
pub open spec fn first_differing(kinds: Seq<KindView>, want: Seq<(DefId, Ty)>, got: Seq<(DefId, Ty)>, i: int) -> Option<int>
    decreases want.len() - i,
{
    if i < 0 || i >= want.len() {
        None
    } else if want[i].1 != got[i].1 && !mentions_self_assoc(kinds, want[i].1.0 as int) {
        Some(i)
    } else {
        first_differing(kinds, want, got, i + 1)
    }
}

/// What the declared shape `want` and the written shape `got` disagree
/// about: the number of type parameters, then the receiver, then the number
/// of parameters, then the first parameter, then the return; a position the
/// implementation left unanswered is not compared.
pub open spec fn disagreement_of(kinds: Seq<KindView>, want: Shape, got: Shape) -> Option<Disagreement> {
    if want.generics@.len() != got.generics@.len() {
        Some(Disagreement::Generics)
    } else if want.recv != got.recv {
        Some(Disagreement::Receiver)
    } else if want.params@.len() != got.params@.len() {
        Some(Disagreement::Arity)
    } else {
        match first_differing(kinds, want.params@, got.params@, 0) {
            Some(at) => Some(Disagreement::Param(at as usize)),
            None => if want.ret != got.ret && !mentions_self_assoc(kinds, want.ret.0 as int) {
                Some(Disagreement::Return)
            } else {
                None
            },
        }
    }
}

fn same_recv(a: Option<SelfKind>, b: Option<SelfKind>) -> (r: bool)
    ensures
        r == (a == b),
{
    match (a, b) {
        (None, None) => true,
        (Some(x), Some(y)) => x == y,
        _ => false,
    }
}

/// What an implementation's signature and its declaration disagree about,
/// or `None` when they agree. Neither shape may mention the error type.
pub fn disagreement(types: &Types, want: &Shape, got: &Shape) -> (r: Option<Disagreement>)
    requires
        types.wf(),
        shape_valid(types, *want),
        shape_valid(types, *got),
    ensures
        r == disagreement_of(types@, *want, *got),
{
    if want.generics.len() != got.generics.len() {
        return Some(Disagreement::Generics);
    }
    if !same_recv(want.recv, got.recv) {
        return Some(Disagreement::Receiver);
    }
    if want.params.len() != got.params.len() {
        return Some(Disagreement::Arity);
    }
    let mut k: usize = 0;
    while k < want.params.len()
        invariant
            types.wf(),
            shape_valid(types, *want),
            want.generics@.len() == got.generics@.len(),
            want.recv == got.recv,
            want.params@.len() == got.params@.len(),
            k <= want.params@.len(),
            first_differing(types@, want.params@, got.params@, 0) == first_differing(
                types@,
                want.params@,
                got.params@,
                k as int,
            ),
        decreases want.params@.len() - k,
    {
        let a = want.params[k].1;
        let b = got.params[k].1;
        if a != b && !unanswered(types, a) {
            return Some(Disagreement::Param(k));
        }
        k = k + 1;
    }
    if want.ret != got.ret && !unanswered(types, want.ret) {
        return Some(Disagreement::Return);
    }
    None
}

// ---------------------------------------------------------------------------
// Which methods are held to what
// ---------------------------------------------------------------------------

/// What the comparison of one block against its interface has to do.
#[derive(Debug, Clone, Copy, PartialEq, Eq, Structural)]
pub enum Finding {
    /// A declared method with no body that the block does not write.
    Unimplemented(DefId),
    /// A declared method and the block's method of that name, to be compared.
    Compare { declared: DefId, written: DefId },
    /// A method of the block that the interface does not declare.
    NotDeclared(DefId),
}

/// The last method of the list with this name.
pub open spec fn last_named(methods: Seq<(String, DefId)>, name: Seq<char>) -> Option<DefId>
    decreases methods.len(),
{
    if methods.len() == 0 {
        None
    } else if methods.last().0@ == name {
        Some(methods.last().1)
    } else {
        last_named(methods.drop_last(), name)
    }
}

/// What each declared method asks of the block, in declaration order: a
/// method the block does not write is missing unless the interface gave it
/// a body, and one it writes is compared. A method with no lowered
/// signature on either side is skipped.
pub open spec fn declared_findings(
    sigs: Map<DefId, Signature>,
    declared: Seq<(String, DefId)>,
    written: Seq<(String, DefId)>,
) -> Seq<Finding>
    decreases declared.len(),
{
    if declared.len() == 0 {
        seq![]
    } else {
        let rest = declared_findings(sigs, declared.drop_last(), written);
        let name = declared.last().0@;
        let d = declared.last().1;
        if !sigs.dom().contains(d) {
            rest
        } else {
            match last_named(written, name) {
                None => if sigs[d].has_body {
                    rest
                } else {
                    rest.push(Finding::Unimplemented(d))
                },
                Some(w) => if sigs.dom().contains(w) {
                    rest.push(Finding::Compare { declared: d, written: w })
                } else {
                    rest
                },
            }
        }
    }
}

/// Whether some declared method has this name.
pub open spec fn declares_name(declared: Seq<(String, DefId)>, name: Seq<char>) -> bool {
    exists|i: int| 0 <= i < declared.len() && (#[trigger] declared[i]).0@ == name
}

/// The block's methods the interface does not declare, in the block's order.
pub open spec fn undeclared(declared: Seq<(String, DefId)>, written: Seq<(String, DefId)>) -> Seq<Finding>
    decreases written.len(),
{
    if written.len() == 0 {
        seq![]
    } else {
        let rest = undeclared(declared, written.drop_last());
        if declares_name(declared, written.last().0@) {
            rest
        } else {
            rest.push(Finding::NotDeclared(written.last().1))
        }
    }
}

/// The last method of `written` named `name`.
fn find_last(written: &[(String, DefId)], name: &str) -> (r: Option<DefId>)
    ensures
        r == last_named(written@, name@),
{
    let mut k: usize = written.len();
    assert(written@.take(k as int) =~= written@);
    while k > 0
        invariant
            k <= written@.len(),
            last_named(written@, name@) == last_named(written@.take(k as int), name@),
        decreases k,
    {
        proof {
            assert(written@.take(k as int).drop_last() =~= written@.take(k - 1));
            assert(written@.take(k as int).last() == written@[k - 1]);
        }
        if str_eq(written[k - 1].0.as_str(), name) {
            return Some(written[k - 1].1);
        }
        k = k - 1;
    }
    None
}

/// Whether some method of `declared` is named `name`.
fn has_name(declared: &[(String, DefId)], name: &str) -> (r: bool)
    ensures
        r == declares_name(declared@, name@),
{
    let mut k: usize = 0;
    while k < declared.len()
        invariant
            k <= declared@.len(),
            forall|j: int| 0 <= j < k ==> (#[trigger] declared@[j]).0@ != name@,
        decreases declared@.len() - k,
    {
        if str_eq(declared[k].0.as_str(), name) {
            assert(declared@[k as int].0@ == name@);
            return true;
        }
        k = k + 1;
    }
    false
}

/// What checking one `implements` block against its interface has to do:
/// for each method the interface declares, in order, report it missing or
/// compare it with the block's method of that name; then, unless the
/// interface is the prelude's, report each method of the block the
/// interface does not declare. A block naming one method twice is compared
/// at the last.
pub fn conformance(
    decls: &Declarations,
    declared: &[(String, DefId)],
    written: &[(String, DefId)],
    interface_builtin: bool,
) -> (out: Vec<Finding>)
    requires
        decls.wf(),
    ensures
        out@ == declared_findings(decls.signatures(), declared@, written@) + (if interface_builtin {
            seq![]
        } else {
            undeclared(declared@, written@)
        }),
{
    let ghost sigs = decls.signatures();
    let mut out: Vec<Finding> = Vec::new();
    let mut i: usize = 0;
    while i < declared.len()
        invariant
            decls.wf(),
            sigs == decls.signatures(),
            i <= declared@.len(),
            out@ == declared_findings(sigs, declared@.take(i as int), written@),
        decreases declared@.len() - i,
    {
        proof {
            assert(declared@.take(i + 1).drop_last() =~= declared@.take(i as int));
            assert(declared@.take(i + 1).last() == declared@[i as int]);
        }
        let d = declared[i].1;
        match decls.signature(d) {
            None => {},
            Some(declaration) => {
                match find_last(written, declared[i].0.as_str()) {
                    None => {
                        if !declaration.has_body {
                            out.push(Finding::Unimplemented(d));
                        }
                    },
                    Some(w) => {
                        if decls.signature(w).is_some() {
                            out.push(Finding::Compare { declared: d, written: w });
                        }
                    },
                }
            },
        }
        i = i + 1;
    }
    assert(declared@.take(i as int) =~= declared@);
    if interface_builtin {
        assert(out@ =~= out@ + Seq::<Finding>::empty());
        return out;
    }
    let ghost first = out@;
    let mut k: usize = 0;
    while k < written.len()
        invariant
            k <= written@.len(),
            out@ == first + undeclared(declared@, written@.take(k as int)),
        decreases written@.len() - k,
    {
        proof {
            assert(written@.take(k + 1).drop_last() =~= written@.take(k as int));
            assert(written@.take(k + 1).last() == written@[k as int]);
        }
        if !has_name(declared, written[k].0.as_str()) {
            out.push(Finding::NotDeclared(written[k].1));
        }
        k = k + 1;
    }
    assert(written@.take(k as int) =~= written@);
    out
}

// ---------------------------------------------------------------------------
// The three reports
// ---------------------------------------------------------------------------

/// The name of a definition, or nothing when the table lacks it.
pub open spec fn def_name(defs: Seq<Definition>, id: DefId) -> Seq<char> {
    match definition_of(defs, id) {
        Some(d) => d.name@,
        None => seq![],
    }
}

fn name_text(defs: &[Definition], id: DefId) -> (out: String)
    ensures
        out@ == def_name(defs@, id),
{
    match find_definition(defs, id) {
        Some(d) => {
            let mut out = String::new();
            push_str(&mut out, d.name.as_str());
            out
        },
        None => String::new(),
    }
}

/// The `declared here` label, when the declaration is one the author can
/// read: a prelude declaration points at no readable line.
pub open spec fn declared_at_view(defs: Seq<Definition>, declared: DefId, message: Seq<char>) -> Option<LabelView> {
    match definition_of(defs, declared) {
        Some(d) => if d.builtin {
            None
        } else {
            Some(LabelView { span: d.span, message, primary: false })
        },
        None => None,
    }
}

/// The `declared here` label, when there is any text to point at.
pub fn declared_at(defs: &[Definition], declared: DefId, message: String) -> (r: Option<Label>)
    ensures
        match r {
            Some(l) => declared_at_view(defs@, declared, message@) == Some(l@),
            None => declared_at_view(defs@, declared, message@) is None,
        },
{
    match find_definition(defs, declared) {
        Some(d) => if d.builtin {
            None
        } else {
            Some(Label { span: d.span, message, primary: false })
        },
        None => None,
    }
}

/// `view` with one more label, when there is one.
pub open spec fn with_optional_label(view: DiagnosticView, label: Option<LabelView>) -> DiagnosticView {
    match label {
        Some(l) => DiagnosticView { labels: view.labels.push(l), ..view },
        None => view,
    }
}

/// `view` with one more note, when there is one.
pub open spec fn with_optional_note(view: DiagnosticView, note: Option<Seq<char>>) -> DiagnosticView {
    match note {
        Some(n) => with_note(view, n),
        None => view,
    }
}

/// Adds a label when there is one.
fn add_optional_label(d: &mut Diagnostic, label: Option<Label>)
    ensures
        final(d)@ == with_optional_label(
            old(d)@,
            match label {
                Some(l) => Some(l@),
                None => None,
            },
        ),
{
    match label {
        Some(l) => {
            let ghost lv = l@;
            d.labels.push(l);
            assert(d@ =~= with_optional_label(old(d)@, Some(lv)));
        },
        None => {},
    }
}

/// The `write it` note: the signature to write, when it can be written.
pub open spec fn signature_note(prefix: Seq<char>, signature: Option<Seq<char>>) -> Option<Seq<char>> {
    match signature {
        Some(s) => Some(prefix + "`"@ + s + ":`"@),
        None => None,
    }
}

fn add_signature_note(d: &mut Diagnostic, prefix: &str, signature: Option<&str>)
    ensures
        final(d)@ == with_optional_note(
            old(d)@,
            signature_note(
                prefix@,
                match signature {
                    Some(s) => Some(s@),
                    None => None,
                },
            ),
        ),
{
    match signature {
        Some(s) => {
            let mut note = String::new();
            push_str(&mut note, prefix);
            push_str(&mut note, "`");
            push_str(&mut note, s);
            push_str(&mut note, ":`");
            add_note(d, note);
        },
        None => {},
    }
}

/// The report for an interface method the block never implements.
pub open spec fn unimplemented_view(
    defs: Seq<Definition>,
    span: Span,
    name: Seq<char>,
    interface: DefId,
    declared: DefId,
    signature: Option<Seq<char>>,
) -> DiagnosticView {
    let interface_name = def_name(defs, interface);
    with_optional_note(
        with_note(
            with_optional_label(
                error_view(
                    UNIMPLEMENTED_INTERFACE_METHOD,
                    "this block does not implement `"@ + interface_name + "`'s method `"@ + name + "`"@,
                    span,
                    "`"@ + name + "` is missing from this implementation"@,
                ),
                declared_at_view(defs, declared, "`"@ + name + "` is declared here, with no body"@),
            ),
            "an interface method with no body is required of every implementation; one with a body is a default the block may leave out"@,
        ),
        signature_note("write it in this block: "@, signature),
    )
}

/// An interface method the block never implements. `signature` is the
/// declaration with the block's substitution applied, as the author would
/// write it, when every type in it can be written.
pub fn unimplemented(
    defs: &[Definition],
    span: Span,
    name: &str,
    interface: DefId,
    declared: DefId,
    signature: Option<&str>,
) -> (d: Diagnostic)
    ensures
        d@ == unimplemented_view(
            defs@,
            span,
            name@,
            interface,
            declared,
            match signature {
                Some(s) => Some(s@),
                None => None,
            },
        ),
{
    let interface_name = name_text(defs, interface);
    let mut message = String::new();
    push_str(&mut message, "this block does not implement `");
    push_str(&mut message, interface_name.as_str());
    push_str(&mut message, "`'s method `");
    push_str(&mut message, name);
    push_str(&mut message, "`");
    let mut label = String::new();
    push_str(&mut label, "`");
    push_str(&mut label, name);
    push_str(&mut label, "` is missing from this implementation");
    let mut declared_message = String::new();
    push_str(&mut declared_message, "`");
    push_str(&mut declared_message, name);
    push_str(&mut declared_message, "` is declared here, with no body");
    let mut d = error_at(UNIMPLEMENTED_INTERFACE_METHOD, message, span, label);
    let secondary = declared_at(defs, declared, declared_message);
    add_optional_label(&mut d, secondary);
    let mut note = String::new();
    push_str(
        &mut note,
        "an interface method with no body is required of every implementation; one with a body is a default the block may leave out",
    );
    add_note(&mut d, note);
    add_signature_note(&mut d, "write it in this block: ", signature);
    d
}

/// The report for a method in the block that the interface does not
/// declare, over the block's `Self` written `ty`.
pub open spec fn not_declared_view(
    defs: Seq<Definition>,
    span: Span,
    name: Seq<char>,
    interface: DefId,
    ty: Seq<char>,
) -> DiagnosticView {
    let interface_name = def_name(defs, interface);
    with_note(
        with_note(
            error_view(
                NOT_AN_INTERFACE_METHOD,
                "`"@ + interface_name + "` declares no method `"@ + name + "`"@,
                span,
                "`"@ + name + "` is not one of `"@ + interface_name + "`'s methods"@,
            ),
            "an `implements` block answers one interface and holds nothing else, so that the methods a type gets from an interface are exactly the ones the interface declares"@,
        ),
        "move it to an inherent block: `"@ + ty + " has:`"@,
    )
}

/// A method in the block that the interface does not declare; the fix is
/// the inherent block, which the author may already have.
pub fn not_declared(defs: &[Definition], span: Span, name: &str, interface: DefId, ty: &str) -> (d: Diagnostic)
    ensures
        d@ == not_declared_view(defs@, span, name@, interface, ty@),
{
    let interface_name = name_text(defs, interface);
    let mut message = String::new();
    push_str(&mut message, "`");
    push_str(&mut message, interface_name.as_str());
    push_str(&mut message, "` declares no method `");
    push_str(&mut message, name);
    push_str(&mut message, "`");
    let mut label = String::new();
    push_str(&mut label, "`");
    push_str(&mut label, name);
    push_str(&mut label, "` is not one of `");
    push_str(&mut label, interface_name.as_str());
    push_str(&mut label, "`'s methods");
    let mut d = error_at(NOT_AN_INTERFACE_METHOD, message, span, label);
    let mut note = String::new();
    push_str(
        &mut note,
        "an `implements` block answers one interface and holds nothing else, so that the methods a type gets from an interface are exactly the ones the interface declares",
    );
    add_note(&mut d, note);
    let mut fix = String::new();
    push_str(&mut fix, "move it to an inherent block: `");
    push_str(&mut fix, ty);
    push_str(&mut fix, " has:`");
    add_note(&mut d, fix);
    d
}

/// How a receiver is written, or that there is none.
pub open spec fn recv_or_none(recv: Option<SelfKind>) -> Seq<char> {
    match recv_text(recv) {
        Some(t) => t,
        None => "no receiver"@,
    }
}

/// What the primary label of a signature mismatch says: the first
/// disagreement, the block's side first. `want_ty` and `got_ty` are the
/// two types at a disagreeing parameter or return, as written.
pub open spec fn mismatch_label_text(
    interface_name: Seq<char>,
    disagreement: Disagreement,
    want: Shape,
    got: Shape,
    want_ty: Seq<char>,
    got_ty: Seq<char>,
) -> Seq<char> {
    match disagreement {
        Disagreement::Generics => "this takes "@ + decimal(got.generics@.len()) + " type parameter(s); `"@
            + interface_name + "` declares "@ + decimal(want.generics@.len()),
        Disagreement::Receiver => "this takes `"@ + recv_or_none(got.recv) + "`; `"@ + interface_name
            + "` declares `"@ + recv_or_none(want.recv) + "`"@,
        Disagreement::Arity => "this takes "@ + decimal(got.params@.len()) + " parameter(s); `"@ + interface_name
            + "` declares "@ + decimal(want.params@.len()),
        Disagreement::Param(at) => "parameter "@ + decimal((at + 1) as nat) + " is `"@ + got_ty + "`; `"@
            + interface_name + "` declares `"@ + want_ty + "`"@,
        Disagreement::Return => "this returns `"@ + got_ty + "`; `"@ + interface_name + "` declares `"@ + want_ty
            + "`"@,
    }
}

fn push_recv(s: &mut String, recv: Option<SelfKind>)
    ensures
        final(s)@ == old(s)@ + recv_or_none(recv),
{
    match render_recv(recv) {
        Some(t) => push_str(s, t),
        None => push_str(s, "no receiver"),
    }
}

/// The report for a method whose signature is not the one the interface
/// declared.
pub open spec fn mismatched_view(
    defs: Seq<Definition>,
    span: Span,
    name: Seq<char>,
    interface: DefId,
    declared: DefId,
    label: Seq<char>,
    signature: Option<Seq<char>>,
) -> DiagnosticView {
    with_optional_note(
        with_note(
            with_optional_label(
                error_view(
                    MISMATCHED_IMPLEMENTATION,
                    "`"@ + name + "` does not have the signature `"@ + def_name(defs, interface) + "` declares for it"@,
                    span,
                    label,
                ),
                declared_at_view(defs, declared, "`"@ + name + "` is declared here"@),
            ),
            "an implementation is held to the declaration, because a call through the interface \u{2014} `any Summarize`, or a body checked against a bound \u{2014} is dispatched at the declared signature and not at this one"@,
        ),
        signature_note("write the declared signature: "@, signature),
    )
}

/// A method whose signature is not the one the interface declared: one
/// code, the first disagreement as the label, and the declared signature as
/// the fix when it can be written. `want_ty` and `got_ty` are the types at
/// a disagreeing parameter or return, as the reader writes them.
pub fn mismatched(
    defs: &[Definition],
    span: Span,
    name: &str,
    interface: DefId,
    declared: DefId,
    want: &Shape,
    got: &Shape,
    disagreement: Disagreement,
    want_ty: &str,
    got_ty: &str,
    signature: Option<&str>,
) -> (d: Diagnostic)
    requires
        disagreement matches Disagreement::Param(at) ==> at < want.params@.len(),
    ensures
        d@ == mismatched_view(
            defs@,
            span,
            name@,
            interface,
            declared,
            mismatch_label_text(def_name(defs@, interface), disagreement, *want, *got, want_ty@, got_ty@),
            match signature {
                Some(s) => Some(s@),
                None => None,
            },
        ),
{
    let interface_name = name_text(defs, interface);
    let mut label = String::new();
    match disagreement {
        Disagreement::Generics => {
            push_str(&mut label, "this takes ");
            push_decimal(&mut label, got.generics.len());
            push_str(&mut label, " type parameter(s); `");
            push_str(&mut label, interface_name.as_str());
            push_str(&mut label, "` declares ");
            push_decimal(&mut label, want.generics.len());
        },
        Disagreement::Receiver => {
            push_str(&mut label, "this takes `");
            push_recv(&mut label, got.recv);
            push_str(&mut label, "`; `");
            push_str(&mut label, interface_name.as_str());
            push_str(&mut label, "` declares `");
            push_recv(&mut label, want.recv);
            push_str(&mut label, "`");
        },
        Disagreement::Arity => {
            push_str(&mut label, "this takes ");
            push_decimal(&mut label, got.params.len());
            push_str(&mut label, " parameter(s); `");
            push_str(&mut label, interface_name.as_str());
            push_str(&mut label, "` declares ");
            push_decimal(&mut label, want.params.len());
        },
        Disagreement::Param(at) => {
            let n = want.params.len();
            assert(at < n);
            push_str(&mut label, "parameter ");
            push_decimal(&mut label, at + 1);
            push_str(&mut label, " is `");
            push_str(&mut label, got_ty);
            push_str(&mut label, "`; `");
            push_str(&mut label, interface_name.as_str());
            push_str(&mut label, "` declares `");
            push_str(&mut label, want_ty);
            push_str(&mut label, "`");
        },
        Disagreement::Return => {
            push_str(&mut label, "this returns `");
            push_str(&mut label, got_ty);
            push_str(&mut label, "`; `");
            push_str(&mut label, interface_name.as_str());
            push_str(&mut label, "` declares `");
            push_str(&mut label, want_ty);
            push_str(&mut label, "`");
        },
    }
    let ghost label_text = label@;
    assert(label_text =~= mismatch_label_text(def_name(defs@, interface), disagreement, *want, *got, want_ty@, got_ty@));
    let mut message = String::new();
    push_str(&mut message, "`");
    push_str(&mut message, name);
    push_str(&mut message, "` does not have the signature `");
    push_str(&mut message, interface_name.as_str());
    push_str(&mut message, "` declares for it");
    let mut declared_message = String::new();
    push_str(&mut declared_message, "`");
    push_str(&mut declared_message, name);
    push_str(&mut declared_message, "` is declared here");
    let mut d = error_at(MISMATCHED_IMPLEMENTATION, message, span, label);
    let secondary = declared_at(defs, declared, declared_message);
    add_optional_label(&mut d, secondary);
    let mut note = String::new();
    push_str(
        &mut note,
        "an implementation is held to the declaration, because a call through the interface \u{2014} `any Summarize`, or a body checked against a bound \u{2014} is dispatched at the declared signature and not at this one",
    );
    add_note(&mut d, note);
    add_signature_note(&mut d, "write the declared signature: ", signature);
    d
}

// ---------------------------------------------------------------------------
// A signature written out
// ---------------------------------------------------------------------------

/// The items with `sep` between them.
pub open spec fn joined(items: Seq<Seq<char>>, sep: Seq<char>) -> Seq<char>
    decreases items.len(),
{
    if items.len() == 0 {
        seq![]
    } else if items.len() == 1 {
        items[0]
    } else {
        joined(items.drop_last(), sep) + sep + items.last()
    }
}

/// A method's own type parameters as its header writes them: one without
/// parentheses, two or more inside them.
pub open spec fn generics_text(names: Seq<Seq<char>>) -> Seq<char> {
    if names.len() == 0 {
        seq![]
    } else if names.len() == 1 {
        " of "@ + names[0]
    } else {
        " of "@ + "("@ + joined(names, ", "@) + ")"@
    }
}

/// Each parameter as `name: type`, the types as the caller rendered them.
pub open spec fn param_texts(defs: Seq<Definition>, params: Seq<(DefId, Ty)>, tys: Seq<Seq<char>>) -> Seq<Seq<char>> {
    Seq::new(params.len(), |i: int| def_name(defs, params[i].0) + ": "@ + tys[i])
}

/// What goes between a header's parentheses: the receiver, then the
/// parameters.
pub open spec fn written_params(defs: Seq<Definition>, shape: Shape, tys: Seq<Seq<char>>) -> Seq<Seq<char>> {
    match recv_text(shape.recv) {
        Some(r) => seq![r] + param_texts(defs, shape.params@, tys),
        None => param_texts(defs, shape.params@, tys),
    }
}

/// One signature in surface syntax, `def name of T(self, at: Int) -> R`,
/// with the parameters' types and the return type as rendered.
pub open spec fn signature_text(
    defs: Seq<Definition>,
    name: Seq<char>,
    shape: Shape,
    tys: Seq<Seq<char>>,
    ret: Seq<char>,
) -> Seq<char> {
    "def "@ + name + generics_text(shape.generics@.map_values(|g: DefId| def_name(defs, g))) + "("@ + joined(
        written_params(defs, shape, tys),
        ", "@,
    ) + ")"@ + (if shape.ret != Ty(1) {
        " -> "@ + ret
    } else {
        seq![]
    })
}

/// Whether `t` occurs in `s`.
pub open spec fn contains_text(s: Seq<char>, t: Seq<char>) -> bool {
    exists|i: int| 0 <= i && i + t.len() <= s.len() && #[trigger] s.subrange(i, i + t.len()) == t
}

/// Whether `t` occurs in `s`.
fn contains_str(s: &str, t: &str) -> (r: bool)
    ensures
        r == contains_text(s@, t@),
{
    let sc = chars_of(s);
    let tc = chars_of(t);
    let n = sc.len();
    let m = tc.len();
    if m > n {
        proof {
            assert forall|i: int| 0 <= i && i + m <= n implies #[trigger] s@.subrange(i, i + m) != t@ by {}
        }
        return false;
    }
    let mut i: usize = 0;
    while i <= n - m
        invariant
            sc@ == s@,
            tc@ == t@,
            n == s@.len(),
            m == t@.len(),
            m <= n,
            i <= n - m + 1,
            forall|k: int| 0 <= k < i ==> #[trigger] s@.subrange(k, k + m) != t@,
        decreases n - m + 1 - i,
    {
        let mut j: usize = 0;
        let mut same = true;
        while j < m && same
            invariant
                sc@ == s@,
                tc@ == t@,
                n == s@.len(),
                m == t@.len(),
                i + m <= n,
                j <= m,
                same ==> forall|q: int| 0 <= q < j ==> s@[i + q] == t@[q],
                !same ==> exists|q: int| 0 <= q < m && s@[i + q] != t@[q],
            decreases m - j,
        {
            if sc[i + j] != tc[j] {
                same = false;
            }
            j = j + 1;
        }
        if same {
            assert(s@.subrange(i as int, i + m) =~= t@);
            return true;
        }
        proof {
            let q = choose|q: int| 0 <= q < m && s@[i + q] != t@[q];
            assert(s@.subrange(i as int, i + m)[q] != t@[q]);
        }
        i = i + 1;
    }
    false
}

/// Appends `parts` with `sep` between them.
fn push_joined(out: &mut String, parts: &Vec<String>, sep: &str)
    ensures
        final(out)@ == old(out)@ + joined(parts@.map_values(|p: String| p@), sep@),
{
    let ghost items = parts@.map_values(|p: String| p@);
    let ghost start = out@;
    let mut k: usize = 0;
    while k < parts.len()
        invariant
            k <= parts@.len(),
            items == parts@.map_values(|p: String| p@),
            out@ == start + joined(items.take(k as int), sep@),
        decreases parts@.len() - k,
    {
        if k > 0 {
            push_str(out, sep);
        }
        push_str(out, parts[k].as_str());
        proof {
            assert(items.take(k + 1).drop_last() =~= items.take(k as int));
            assert(items.take(k + 1).last() == parts@[k as int]@);
            if k == 0 {
                assert(joined(items.take(0), sep@) =~= Seq::<char>::empty());
                assert(items.take(1) =~= seq![parts@[0]@]);
            }
        }
        k = k + 1;
    }
    assert(items.take(k as int) =~= items);
}

/// One signature in surface syntax, or `None` when a type in it has no
/// spelling: `param_tys` are the parameters' types and `ret` the return
/// type as rendered, and a rendering holding `{unknown}` is no line the
/// author could write.
pub fn render_signature(defs: &[Definition], name: &str, shape: &Shape, param_tys: &[String], ret: &str) -> (r:
    Option<String>)
    requires
        param_tys@.len() == shape.params@.len(),
    ensures
        match r {
            Some(s) => s@ == signature_text(defs@, name@, *shape, param_tys@.map_values(|p: String| p@), ret@)
                && !contains_text(s@, "{unknown}"@),
            None => contains_text(
                signature_text(defs@, name@, *shape, param_tys@.map_values(|p: String| p@), ret@),
                "{unknown}"@,
            ),
        },
{
    let ghost tys = param_tys@.map_values(|p: String| p@);
    let mut out = String::new();
    push_str(&mut out, "def ");
    push_str(&mut out, name);
    let mut names: Vec<String> = Vec::new();
    let mut g: usize = 0;
    while g < shape.generics.len()
        invariant
            g <= shape.generics@.len(),
            names@.len() == g,
            forall|q: int| 0 <= q < g ==> (#[trigger] names@[q])@ == def_name(defs@, shape.generics@[q]),
        decreases shape.generics@.len() - g,
    {
        let t = name_text(defs, shape.generics[g]);
        names.push(t);
        g = g + 1;
    }
    assert(names@.map_values(|p: String| p@) =~= shape.generics@.map_values(|d: DefId| def_name(defs@, d)));
    if names.len() == 1 {
        push_str(&mut out, " of ");
        push_str(&mut out, names[0].as_str());
    } else if names.len() > 1 {
        push_str(&mut out, " of ");
        push_str(&mut out, "(");
        push_joined(&mut out, &names, ", ");
        push_str(&mut out, ")");
    }
    let mut parts: Vec<String> = Vec::new();
    if let Some(recv) = render_recv(shape.recv) {
        let mut text = String::new();
        push_str(&mut text, recv);
        parts.push(text);
    }
    let ghost lead = parts@.map_values(|p: String| p@);
    let ghost pt = param_texts(defs@, shape.params@, tys);
    assert(parts@.len() == lead.len());
    let mut k: usize = 0;
    while k < shape.params.len()
        invariant
            k <= shape.params@.len(),
            param_tys@.len() == shape.params@.len(),
            tys == param_tys@.map_values(|p: String| p@),
            pt == param_texts(defs@, shape.params@, tys),
            parts@.len() == lead.len() + k,
            forall|q: int| 0 <= q < lead.len() ==> (#[trigger] parts@[q])@ == lead[q],
            forall|q: int| 0 <= q < k ==> (#[trigger] parts@[lead.len() + q])@ == pt[q],
        decreases shape.params@.len() - k,
    {
        let mut text = name_text(defs, shape.params[k].0);
        push_str(&mut text, ": ");
        push_str(&mut text, param_tys[k].as_str());
        proof {
            assert(text@ == pt[k as int]);
        }
        let ghost before = parts@;
        parts.push(text);
        proof {
            assert forall|q: int| 0 <= q < lead.len() implies (#[trigger] parts@[q])@ == lead[q] by {
                assert(parts@[q] == before[q]);
            }
            assert forall|q: int| 0 <= q < k + 1 implies (#[trigger] parts@[lead.len() + q])@ == pt[q] by {
                if q < k {
                    assert(parts@[lead.len() + q] == before[lead.len() + q]);
                }
            }
        }
        k = k + 1;
    }
    proof {
        assert forall|q: int| 0 <= q < parts@.len() implies parts@.map_values(|p: String| p@)[q] == (lead + pt)[q] by {
            if q >= lead.len() {
                assert(parts@[lead.len() + (q - lead.len())] == parts@[q]);
            }
        }
        assert(parts@.map_values(|p: String| p@) =~= lead + pt);
    }
    proof {
        assert(param_texts(defs@, shape.params@, tys).take(k as int) =~= param_texts(defs@, shape.params@, tys));
        match recv_text(shape.recv) {
            Some(rt) => assert(lead =~= seq![rt]),
            None => assert(lead =~= Seq::<Seq<char>>::empty()),
        }
        assert(parts@.map_values(|p: String| p@) =~= written_params(defs@, *shape, tys));
    }
    push_str(&mut out, "(");
    push_joined(&mut out, &parts, ", ");
    push_str(&mut out, ")");
    if shape.ret != Ty::unit() {
        push_str(&mut out, " -> ");
        push_str(&mut out, ret);
    }
    proof {
        let gnames = shape.generics@.map_values(|d: DefId| def_name(defs@, d));
        if gnames.len() == 1 {
            assert(gnames[0] == names@[0]@);
        }
        assert(out@ =~= signature_text(defs@, name@, *shape, tys, ret@));
    }
    if contains_str(out.as_str(), "{unknown}") {
        None
    } else {
        Some(out)
    }
}

/// Whether an `implements` block is held to its interface at all: it names
/// a definition, that definition is an interface, the block's `Self` type is
/// known and free of the error type, and every argument it gives the
/// interface lowered. Each failing condition is one an earlier pass
/// reported, and a block naming no interface promises nothing.
pub open spec fn block_judged(
    decls: Declarations,
    defs: Seq<Definition>,
    kinds: Seq<KindView>,
    block: DefId,
    interface: Option<DefId>,
) -> bool {
    &&& interface matches Some(i)
    &&& definition_of(defs, i) matches Some(d) && d.kind == DefKind::Interface
    &&& decls.self_types().dom().contains(block)
    &&& !mentions_error(kinds, decls.self_types()[block].0 as int)
    &&& forall|k: int|
        0 <= k < interface_arguments_of(
            decls.implemented_args(),
            decls.implemented(),
            decls.interface_generics(),
            block,
        ).len() ==> !(#[trigger] interface_arguments_of(
            decls.implemented_args(),
            decls.implemented(),
            decls.interface_generics(),
            block,
        )[k].1 is Error)
}

/// Checks one block against the interface it names (`interface`, when the
/// bound resolved to a definition): nothing for a block that is not judged
/// (see [`block_judged`]), and otherwise [`conformance`] of the interface's
/// declared methods and the block's written ones, the prelude's interfaces
/// being spared the check for undeclared methods.
pub fn block_conforms(
    decls: &Declarations,
    defs: &[Definition],
    types: &Types,
    block: DefId,
    interface: Option<DefId>,
    declared: &[(String, DefId)],
    written: &[(String, DefId)],
) -> (out: Vec<Finding>)
    requires
        decls.wf(),
        types.wf(),
        decls.self_types().dom().contains(block) ==> types.valid(decls.self_types()[block]),
    ensures
        out@ == if block_judged(*decls, defs@, types@, block, interface) {
            declared_findings(decls.signatures(), declared@, written@) + (if definition_of(
                defs@,
                interface->0,
            )->0.builtin {
                seq![]
            } else {
                undeclared(declared@, written@)
            })
        } else {
            seq![]
        },
{
    let i = match interface {
        Some(i) => i,
        None => {
            return Vec::new();
        },
    };
    let d = match find_definition(defs, i) {
        Some(d) => d,
        None => {
            return Vec::new();
        },
    };
    if d.kind != DefKind::Interface {
        return Vec::new();
    }
    let self_ty = match decls.self_ty(block) {
        Some(t) => t,
        None => {
            return Vec::new();
        },
    };
    if types.references_error(self_ty) {
        return Vec::new();
    }
    let args = decls.interface_arguments(block);
    let ghost want = interface_arguments_of(
        decls.implemented_args(),
        decls.implemented(),
        decls.interface_generics(),
        block,
    );
    let mut k: usize = 0;
    while k < args.len()
        invariant
            k <= args@.len(),
            pairs_view(args@) == want,
            want == interface_arguments_of(
                decls.implemented_args(),
                decls.implemented(),
                decls.interface_generics(),
                block,
            ),
            forall|j: int| 0 <= j < k ==> !(#[trigger] want[j].1 is Error),
        decreases args@.len() - k,
    {
        proof {
            assert(want[k as int] == (args@[k as int].0, args@[k as int].1@));
        }
        if let GenericArg::Error = args[k].1 {
            proof {
                assert(want[k as int].1 is Error);
            }
            return Vec::new();
        }
        k = k + 1;
    }
    conformance(decls, declared, written, d.builtin)
}

} // verus!
