//! The expression checker's own small decisions: how two literal kinds in one
//! inference class widen, which interface an index dispatches to, and which
//! types this phase can classify at all; and the reports it makes.

use vstd::prelude::*;

use crate::codes::{
    AMBIGUOUS_METHOD, ARRAY_ELEMENT_MISMATCH, BINDING_COUNT_MISMATCH, EMPTY_ARRAY_NO_TYPE, MISMATCHED_TYPES,
    NOT_DISPLAYABLE, NO_MATCHING_IMPLEMENTATION, NO_OPERATOR_IMPLEMENTATION, NO_SUCH_FIELD, NO_SUCH_METHOD,
    PRESENCE_TEST_ON_NON_NULLABLE, RANGE_INDEX_NEEDS_SLICE, TYPE_ANNOTATIONS_NEEDED, UNINFERABLE_RECEIVER,
    UNSATISFIED_BOUND, WRONG_ARGUMENT_COUNT,
};
use crate::diagnostics::{
    add_label, add_note, comma_joined, error_at, error_view, with_label, with_note, Diagnostic,
    DiagnosticView, LabelView,
};
use crate::infer::Span;
use crate::assign::{DefKind, Definition};
use crate::items::{
    definition_of, find_definition, float_names, integer_names, is_any, lookup, not_numeric_names, output_names,
    GenericParam,
    GenericParamKind, Prelude,
};
use crate::syntax::{BinaryOp, NumSuffix};
use crate::text::{decimal, push_decimal, push_str, str_eq};
use crate::ty::{
    mentions_error, operands, ArgView, DefId, GenericArg, KindView, NormalForm, NormalFormView, Ty, TyKind, Types,
};

verus! {

/// The kind of a literal whose type is not fixed yet.
#[derive(Debug, Clone, Copy, PartialEq, Eq, Structural)]
pub enum Numeric {
    Integer,
    Float,
    /// `null`, which has no default at all.
    Null,
}

/// Two literal kinds in one inference class: `null` yields to the other, and
/// an integer unified with a float is a float.
pub open spec fn widened(left: Numeric, right: Numeric) -> Numeric {
    if left == Numeric::Null {
        right
    } else if right == Numeric::Null {
        left
    } else if left == Numeric::Float || right == Numeric::Float {
        Numeric::Float
    } else {
        Numeric::Integer
    }
}

/// Two literal kinds in one inference class. An integer literal unified with
/// a float one is a float: the integer is the one that can be represented
/// exactly in the other's type.
pub fn widen_numeric(left: Numeric, right: Numeric) -> (n: Numeric)
    ensures
        n == widened(left, right),
{
    match (left, right) {
        (Numeric::Null, other) | (other, Numeric::Null) => other,
        (Numeric::Float, _) | (_, Numeric::Float) => Numeric::Float,
        _ => Numeric::Integer,
    }
}

/// How wide a literal kind is: `null` is narrowest, then an integer, then a
/// float.
pub open spec fn numeric_width(n: Numeric) -> int {
    match n {
        Numeric::Null => 0,
        Numeric::Integer => 1,
        Numeric::Float => 2,
    }
}

/// **Widening takes the wider kind, whichever side it is on.** The kind two
/// literal kinds widen to is as wide as the wider of the two and is one of
/// them; so the order does not matter, `null` changes nothing, and a float on
/// either side makes a float.
pub proof fn law_widening_takes_the_wider(left: Numeric, right: Numeric)
    ensures
        numeric_width(widened(left, right)) == if numeric_width(left) >= numeric_width(right) {
            numeric_width(left)
        } else {
            numeric_width(right)
        },
        widened(left, right) == left || widened(left, right) == right,
        widened(left, right) == widened(right, left),
        widened(left, Numeric::Null) == left,
        (left == Numeric::Float || right == Numeric::Float) ==> widened(left, right) == Numeric::Float,
{
}

/// Which half of an `a[i]` this is, decided by the position: a bracket on the
/// left of a `be` is a write and a bracket anywhere else is a read.
#[derive(Debug, Clone, Copy, PartialEq, Eq, Structural)]
pub enum Indexing {
    /// `a[i]` — `Index.index`.
    Read,
    /// `a[i] be v` — `IndexMutably.index_mutably`.
    Write,
}

impl Indexing {
    /// The interface this dispatches to and the method's name on it.
    pub fn dispatch(self) -> (r: (&'static str, &'static str))
        ensures
            self == Indexing::Read ==> r.0@ == "Index"@ && r.1@ == "index"@,
            self == Indexing::Write ==> r.0@ == "IndexMutably"@ && r.1@ == "index_mutably"@,
    {
        match self {
            Indexing::Read => ("Index", "index"),
            Indexing::Write => ("IndexMutably", "index_mutably"),
        }
    }
}

/// Whether a type is a prelude-shaped name this phase can classify: a named
/// type, and not a parameter, a `Self`, a closure or a tuple.
pub fn is_prelude_named(types: &Types, ty: Ty) -> (r: bool)
    requires
        types.wf(),
        types.valid(ty),
    ensures
        r == (types@[ty.0 as int] is Named),
{
    match types.kind(ty) {
        TyKind::Named { .. } => true,
        _ => false,
    }
}

/// Whether this phase can say nothing at all about what inhabits a type: a
/// parameter, a `Self`, a `Self.Item`, or a type that mentions the error type.
pub open spec fn opaque(kinds: Seq<KindView>, ty: Ty) -> bool {
    let k = kinds[ty.0 as int];
    k is Error || k is Param || k is SelfType || k is SelfAssoc || mentions_error(kinds, ty.0 as int)
}

/// Whether this phase can say nothing at all about what inhabits a type.
pub fn is_opaque(types: &Types, ty: Ty) -> (r: bool)
    requires
        types.wf(),
        types.valid(ty),
    ensures
        r == opaque(types@, ty),
{
    let shape = match types.kind(ty) {
        TyKind::Error | TyKind::Param { .. } | TyKind::SelfType { .. } | TyKind::SelfAssoc {
            ..
        } => true,
        _ => false,
    };
    shape || types.references_error(ty)
}

// ---------------------------------------------------------------------------
// Suffixes
// ---------------------------------------------------------------------------

/// The prelude name a number suffix names.
pub open spec fn suffix_text(suffix: NumSuffix) -> Seq<char> {
    match suffix {
        NumSuffix::I8 => "I8"@,
        NumSuffix::I16 => "I16"@,
        NumSuffix::I32 => "I32"@,
        NumSuffix::I64 => "I64"@,
        NumSuffix::U8 => "U8"@,
        NumSuffix::U16 => "U16"@,
        NumSuffix::U32 => "U32"@,
        NumSuffix::U64 => "U64"@,
        NumSuffix::F32 => "F32"@,
        NumSuffix::F64 => "F64"@,
    }
}

/// The prelude type a number suffix names.
pub fn suffix_name(suffix: NumSuffix) -> (name: &'static str)
    ensures
        name@ == suffix_text(suffix),
{
    match suffix {
        NumSuffix::I8 => "I8",
        NumSuffix::I16 => "I16",
        NumSuffix::I32 => "I32",
        NumSuffix::I64 => "I64",
        NumSuffix::U8 => "U8",
        NumSuffix::U16 => "U16",
        NumSuffix::U32 => "U32",
        NumSuffix::U64 => "U64",
        NumSuffix::F32 => "F32",
        NumSuffix::F64 => "F64",
    }
}

// ---------------------------------------------------------------------------
// Reports
// ---------------------------------------------------------------------------

fn owned(s: &str) -> (out: String)
    ensures
        out@ == s@,
{
    s.to_owned()
}

/// `""` for one, `"s"` otherwise.
pub open spec fn plural(n: int) -> Seq<char> {
    if n == 1 {
        seq![]
    } else {
        "s"@
    }
}

fn push_plural(s: &mut String, one: bool)
    ensures
        final(s)@ == old(s)@ + (if one { seq![] } else { "s"@ }),
{
    if one {
        assert(old(s)@ + Seq::<char>::empty() =~= old(s)@);
    } else {
        push_str(s, "s");
    }
}

/// Appends the names, each in backquotes, with `", "` between them.
fn push_comma_joined(s: &mut String, names: &[String])
    ensures
        final(s)@ == old(s)@ + comma_joined(names@.map_values(|n: String| n@)),
{
    let ghost ns = names@.map_values(|n: String| n@);
    let ghost start = s@;
    let mut k: usize = 0;
    assert(comma_joined(ns.take(0)) == Seq::<char>::empty());
    assert(start + Seq::<char>::empty() =~= start);
    while k < names.len()
        invariant
            k <= names@.len(),
            ns == names@.map_values(|n: String| n@),
            s@ == start + comma_joined(ns.take(k as int)),
        decreases names@.len() - k,
    {
        if k > 0 {
            push_str(s, ", ");
        }
        push_str(s, "`");
        push_str(s, names[k].as_str());
        push_str(s, "`");
        proof {
            assert(ns.take(k + 1).drop_last() =~= ns.take(k as int));
            assert(ns.take(k + 1).last() == names@[k as int]@);
            if k == 0 {
                assert(ns.take(1).len() == 1);
            }
            assert(s@ =~= start + comma_joined(ns.take(k + 1)));
        }
        k = k + 1;
    }
    assert(ns.take(names@.len() as int) =~= ns);
}

/// The report for a value of one type where another was expected.
pub open spec fn mismatched_types_view(span: Span, expected: Seq<char>, found: Seq<char>) -> DiagnosticView {
    error_view(
        MISMATCHED_TYPES,
        "expected `"@ + expected + "`, found `"@ + found + "`"@,
        span,
        "this is `"@ + found + "`"@,
    )
}

/// A value of one type where another was expected.
pub fn mismatched_types(span: Span, expected: &str, found: &str) -> (d: Diagnostic)
    ensures
        d@ == mismatched_types_view(span, expected@, found@),
{
    let mut message = owned("expected `");
    push_str(&mut message, expected);
    push_str(&mut message, "`, found `");
    push_str(&mut message, found);
    push_str(&mut message, "`");
    let mut label = owned("this is `");
    push_str(&mut label, found);
    push_str(&mut label, "`");
    let d = error_at(MISMATCHED_TYPES, message, span, label);
    assert(d@ =~= mismatched_types_view(span, expected@, found@));
    d
}

/// The report for a call with the wrong number of arguments.
pub open spec fn wrong_argument_count_view(span: Span, expected: nat, found: nat) -> DiagnosticView {
    error_view(
        WRONG_ARGUMENT_COUNT,
        "this call takes "@ + decimal(expected) + " argument"@ + plural(expected as int) + " and was given "@
            + decimal(found),
        span,
        decimal(found) + " given"@,
    )
}

/// A call with the wrong number of arguments.
pub fn wrong_argument_count(span: Span, expected: usize, found: usize) -> (d: Diagnostic)
    ensures
        d@ == wrong_argument_count_view(span, expected as nat, found as nat),
{
    let mut message = owned("this call takes ");
    push_decimal(&mut message, expected);
    push_str(&mut message, " argument");
    push_plural(&mut message, expected == 1);
    push_str(&mut message, " and was given ");
    push_decimal(&mut message, found);
    let mut label = String::new();
    push_decimal(&mut label, found);
    push_str(&mut label, " given");
    let d = error_at(WRONG_ARGUMENT_COUNT, message, span, label);
    assert(d@ =~= wrong_argument_count_view(span, expected as nat, found as nat));
    d
}

/// The report for a field the type does not have.
pub open spec fn no_such_field_view(span: Span, name: Seq<char>, ty: Seq<char>) -> DiagnosticView {
    error_view(NO_SUCH_FIELD, "`"@ + ty + "` has no field `"@ + name + "`"@, span, "no such field"@)
}

/// A field the type does not have.
pub fn no_such_field(span: Span, name: &str, ty: &str) -> (d: Diagnostic)
    ensures
        d@ == no_such_field_view(span, name@, ty@),
{
    let mut message = owned("`");
    push_str(&mut message, ty);
    push_str(&mut message, "` has no field `");
    push_str(&mut message, name);
    push_str(&mut message, "`");
    let d = error_at(NO_SUCH_FIELD, message, span, owned("no such field"));
    assert(d@ =~= no_such_field_view(span, name@, ty@));
    d
}

/// The report for `let a, b be f()` against a value that is not a tuple of
/// that width.
pub open spec fn binding_count_view(span: Span, wanted: nat, found: Option<nat>, ty: Seq<char>) -> DiagnosticView {
    error_view(
        BINDING_COUNT_MISMATCH,
        match found {
            Some(parts) => "this `let` binds "@ + decimal(wanted) + " names and the value has "@ + decimal(parts)
                + " parts"@,
            None => "this `let` binds "@ + decimal(wanted) + " names and the value is not a tuple"@,
        },
        span,
        "the value is `"@ + ty + "`"@,
    )
}

/// `let a, b be f()` against something that is not a tuple of that width.
pub fn binding_count(span: Span, wanted: usize, found: Option<usize>, ty: &str) -> (d: Diagnostic)
    ensures
        d@ == binding_count_view(
            span,
            wanted as nat,
            match found {
                Some(parts) => Some(parts as nat),
                None => None,
            },
            ty@,
        ),
{
    let mut message = owned("this `let` binds ");
    push_decimal(&mut message, wanted);
    match found {
        Some(parts) => {
            push_str(&mut message, " names and the value has ");
            push_decimal(&mut message, parts);
            push_str(&mut message, " parts");
        },
        None => {
            push_str(&mut message, " names and the value is not a tuple");
        },
    }
    let mut label = owned("the value is `");
    push_str(&mut label, ty);
    push_str(&mut label, "`");
    let d = error_at(BINDING_COUNT_MISMATCH, message, span, label);
    assert(d@ =~= binding_count_view(
        span,
        wanted as nat,
        match found {
            Some(parts) => Some(parts as nat),
            None => None,
        },
        ty@,
    ));
    d
}

/// The report for `e?` where `e` cannot be absent.
pub open spec fn not_nullable_view(span: Span, ty: Seq<char>) -> DiagnosticView {
    with_note(
        error_view(
            PRESENCE_TEST_ON_NON_NULLABLE,
            "this value is never absent"@,
            span,
            "`"@ + ty + "` is not a nullable type"@,
        ),
        "`?` tests a `T?` for a value; on a `T` it is always true"@,
    )
}

/// `e?` where `e` cannot be absent.
pub fn not_nullable(span: Span, ty: &str) -> (d: Diagnostic)
    ensures
        d@ == not_nullable_view(span, ty@),
{
    let mut label = owned("`");
    push_str(&mut label, ty);
    push_str(&mut label, "` is not a nullable type");
    let mut d = error_at(PRESENCE_TEST_ON_NON_NULLABLE, owned("this value is never absent"), span, label);
    add_note(&mut d, owned("`?` tests a `T?` for a value; on a `T` it is always true"));
    assert(d@ =~= not_nullable_view(span, ty@));
    d
}

/// The report for a method the receiver's type does not have.
pub open spec fn no_such_method_view(span: Span, name: Seq<char>, ty: Seq<char>) -> DiagnosticView {
    with_note(
        error_view(NO_SUCH_METHOD, "`"@ + ty + "` has no method `"@ + name + "`"@, span, "no such method"@),
        "method lookup finds the inherent methods of the type and the methods of the interfaces it implements, and neither has this name"@,
    )
}

/// A method the receiver's type does not have.
pub fn no_such_method(span: Span, name: &str, ty: &str) -> (d: Diagnostic)
    ensures
        d@ == no_such_method_view(span, name@, ty@),
{
    let mut message = owned("`");
    push_str(&mut message, ty);
    push_str(&mut message, "` has no method `");
    push_str(&mut message, name);
    push_str(&mut message, "`");
    let mut d = error_at(NO_SUCH_METHOD, message, span, owned("no such method"));
    add_note(
        &mut d,
        owned(
            "method lookup finds the inherent methods of the type and the methods of the interfaces it implements, and neither has this name",
        ),
    );
    assert(d@ =~= no_such_method_view(span, name@, ty@));
    d
}

/// The report for a generic argument that does not satisfy the callee's
/// bound: the primary label names the argument, the secondary one the
/// bound as written.
pub open spec fn unsatisfied_bound_view(
    span: Span,
    ty: Seq<char>,
    interface: Seq<char>,
    parameter: Seq<char>,
    bound: Span,
) -> DiagnosticView {
    with_note(
        with_label(
            error_view(
                UNSATISFIED_BOUND,
                "`"@ + ty + "` does not implement `"@ + interface + "`"@,
                span,
                "`"@ + parameter + "` is `"@ + ty + "` here"@,
            ),
            bound,
            "`"@ + parameter + "` was declared `"@ + interface + "`"@,
            false,
        ),
        "an implementation is a block the program writes: `"@ + ty + " implements "@ + interface + ":`"@,
    )
}

/// A generic argument that does not satisfy the callee's bound.
pub fn unsatisfied_bound(span: Span, ty: &str, interface: &str, parameter: &str, bound: Span) -> (d: Diagnostic)
    ensures
        d@ == unsatisfied_bound_view(span, ty@, interface@, parameter@, bound),
{
    let mut message = owned("`");
    push_str(&mut message, ty);
    push_str(&mut message, "` does not implement `");
    push_str(&mut message, interface);
    push_str(&mut message, "`");
    let mut label = owned("`");
    push_str(&mut label, parameter);
    push_str(&mut label, "` is `");
    push_str(&mut label, ty);
    push_str(&mut label, "` here");
    let mut d = error_at(UNSATISFIED_BOUND, message, span, label);
    let mut declared = owned("`");
    push_str(&mut declared, parameter);
    push_str(&mut declared, "` was declared `");
    push_str(&mut declared, interface);
    push_str(&mut declared, "`");
    add_label(&mut d, bound, declared, false);
    let mut note = owned("an implementation is a block the program writes: `");
    push_str(&mut note, ty);
    push_str(&mut note, " implements ");
    push_str(&mut note, interface);
    push_str(&mut note, ":`");
    add_note(&mut d, note);
    assert(d@ =~= unsatisfied_bound_view(span, ty@, interface@, parameter@, bound));
    d
}

/// The report for an associated call through a generic type's bare name
/// whose own type arguments nothing at the call fixes.
pub open spec fn uninferable_receiver_view(
    span: Span,
    ty: Seq<char>,
    method: Seq<char>,
    unsolved: Seq<Seq<char>>,
    consts: bool,
) -> DiagnosticView {
    let count = unsolved.len() + (if consts { 1int } else { 0int });
    let label = if unsolved.len() == 0 {
        "`"@ + ty + "`'s const argument"@ + plural(count) + " can only come from an instantiation"@
    } else {
        "nothing here fixes "@ + comma_joined(unsolved)
    };
    with_note(
        with_note(
            error_view(
                UNINFERABLE_RECEIVER,
                "the type argument"@ + plural(count) + " of `"@ + ty + "` cannot be inferred here"@,
                span,
                label,
            ),
            "an associated function is reached through a type and not through a value, so the type's arguments come from the instantiation the caller writes or from the arguments of this call, and from nowhere else"@,
        ),
        "write the instantiation, in parentheses so that the `.` applies to the whole type: `("@ + ty
            + " of ..)."@ + method + "(..)`"@,
    )
}

/// An associated call through a generic type's bare name whose type
/// arguments nothing fixes: names the open parameters and offers the
/// spelling that fixes them.
pub fn uninferable_receiver(span: Span, ty: &str, method: &str, unsolved: &[String], consts: bool) -> (d: Diagnostic)
    ensures
        d@ == uninferable_receiver_view(span, ty@, method@, unsolved@.map_values(|n: String| n@), consts),
{
    let one = (unsolved.len() == 1 && !consts) || (unsolved.len() == 0 && consts);
    let mut label: String;
    if unsolved.len() == 0 {
        label = owned("`");
        push_str(&mut label, ty);
        push_str(&mut label, "`'s const argument");
        push_plural(&mut label, one);
        push_str(&mut label, " can only come from an instantiation");
    } else {
        label = owned("nothing here fixes ");
        push_comma_joined(&mut label, unsolved);
    }
    let mut message = owned("the type argument");
    push_plural(&mut message, one);
    push_str(&mut message, " of `");
    push_str(&mut message, ty);
    push_str(&mut message, "` cannot be inferred here");
    let mut d = error_at(UNINFERABLE_RECEIVER, message, span, label);
    add_note(
        &mut d,
        owned(
            "an associated function is reached through a type and not through a value, so the type's arguments come from the instantiation the caller writes or from the arguments of this call, and from nowhere else",
        ),
    );
    let mut spelling = owned("write the instantiation, in parentheses so that the `.` applies to the whole type: `(");
    push_str(&mut spelling, ty);
    push_str(&mut spelling, " of ..).");
    push_str(&mut spelling, method);
    push_str(&mut spelling, "(..)`");
    add_note(&mut d, spelling);
    assert(d@ =~= uninferable_receiver_view(span, ty@, method@, unsolved@.map_values(|n: String| n@), consts));
    d
}

/// The secondary labels of the implementations a call could have meant,
/// each saying what it accepts.
pub open spec fn accepting_labels(accepts: Seq<(Span, String)>, prefix: Seq<char>) -> Seq<LabelView> {
    accepts.map_values(|a: (Span, String)| LabelView { span: a.0, message: prefix + a.1@, primary: false })
}

/// Adds a secondary label per implementation, `prefix` then what it accepts.
fn add_accepting_labels(d: &mut Diagnostic, accepts: &[(Span, String)], prefix: &str)
    ensures
        final(d)@ == (DiagnosticView { labels: old(d)@.labels + accepting_labels(accepts@, prefix@), ..old(d)@ }),
{
    let ghost start = d@;
    let mut k: usize = 0;
    while k < accepts.len()
        invariant
            k <= accepts@.len(),
            d@ == (DiagnosticView { labels: start.labels + accepting_labels(accepts@.take(k as int), prefix@), ..start }),
        decreases accepts@.len() - k,
    {
        let mut message = owned(prefix);
        push_str(&mut message, accepts[k].1.as_str());
        add_label(d, accepts[k].0, message, false);
        proof {
            assert(accepting_labels(accepts@.take(k + 1), prefix@) =~= accepting_labels(accepts@.take(k as int), prefix@).push(
                LabelView { span: accepts@[k as int].0, message: prefix@ + accepts@[k as int].1@, primary: false },
            ));
            assert(d@.labels =~= start.labels + accepting_labels(accepts@.take(k + 1), prefix@));
        }
        k = k + 1;
    }
    assert(accepts@.take(accepts@.len() as int) =~= accepts@);
}

/// The report for a method call the arguments did not narrow to one
/// implementation of an interface.
pub open spec fn instances_not_narrowed_view(
    span: Span,
    name: Seq<char>,
    receiver: Seq<char>,
    interface: Seq<char>,
    supplied: Seq<char>,
    accepts: Seq<(Span, String)>,
    literal: bool,
) -> DiagnosticView {
    let base = error_view(
        AMBIGUOUS_METHOD,
        "`"@ + name + "` on `"@ + receiver + "` could be "@ + decimal(accepts.len()) + " implementations of `"@
            + interface + "`"@,
        span,
        "supplied "@ + supplied + ", which fits all of them"@,
    );
    let labelled = DiagnosticView { labels: base.labels + accepting_labels(accepts, "one accepts "@), ..base };
    let noted = with_note(
        labelled,
        "these are one method at several instantiations of one interface, so the argument types are what choose between them \u{2014} and here they did not narrow it to one"@,
    );
    if literal {
        with_note(
            noted,
            "a literal or `null` has no type until a signature expects one, and which signature that is is what this call is trying to decide \u{2014} give the argument a type first, with a suffix or a binding that is annotated"@,
        )
    } else {
        noted
    }
}

/// Implementations of one interface that the arguments did not narrow to
/// one: says what each accepts, and for a literal argument, that giving it
/// a type is the fix.
pub fn instances_not_narrowed(
    span: Span,
    name: &str,
    receiver: &str,
    interface: &str,
    supplied: &str,
    accepts: &[(Span, String)],
    literal: bool,
) -> (d: Diagnostic)
    ensures
        d@ == instances_not_narrowed_view(span, name@, receiver@, interface@, supplied@, accepts@, literal),
{
    let mut message = owned("`");
    push_str(&mut message, name);
    push_str(&mut message, "` on `");
    push_str(&mut message, receiver);
    push_str(&mut message, "` could be ");
    push_decimal(&mut message, accepts.len());
    push_str(&mut message, " implementations of `");
    push_str(&mut message, interface);
    push_str(&mut message, "`");
    let mut label = owned("supplied ");
    push_str(&mut label, supplied);
    push_str(&mut label, ", which fits all of them");
    let mut d = error_at(AMBIGUOUS_METHOD, message, span, label);
    add_accepting_labels(&mut d, accepts, "one accepts ");
    add_note(
        &mut d,
        owned(
            "these are one method at several instantiations of one interface, so the argument types are what choose between them \u{2014} and here they did not narrow it to one",
        ),
    );
    if literal {
        add_note(
            &mut d,
            owned(
                "a literal or `null` has no type until a signature expects one, and which signature that is is what this call is trying to decide \u{2014} give the argument a type first, with a suffix or a binding that is annotated",
            ),
        );
    }
    assert(d@ =~= instances_not_narrowed_view(span, name@, receiver@, interface@, supplied@, accepts@, literal));
    d
}

/// The report for arguments no implementation of the interface accepts.
pub open spec fn no_matching_instance_view(
    span: Span,
    name: Seq<char>,
    receiver: Seq<char>,
    interface: Seq<char>,
    supplied: Seq<char>,
    accepts: Seq<(Span, String)>,
) -> DiagnosticView {
    let base = error_view(
        NO_MATCHING_IMPLEMENTATION,
        "no implementation of `"@ + interface + "` for `"@ + receiver + "` accepts "@ + supplied,
        span,
        "`"@ + name + "` was given "@ + supplied,
    );
    with_note(
        DiagnosticView { labels: base.labels + accepting_labels(accepts, "this one accepts "@), ..base },
        "these are one method at several instantiations of one interface, and the argument types choose between them \u{2014} so an argument that fits none of them names no method"@,
    )
}

/// Arguments that fit none of the implementations of the interface: names
/// what each accepts, since that list is all the author has to choose from.
pub fn no_matching_instance(
    span: Span,
    name: &str,
    receiver: &str,
    interface: &str,
    supplied: &str,
    accepts: &[(Span, String)],
) -> (d: Diagnostic)
    ensures
        d@ == no_matching_instance_view(span, name@, receiver@, interface@, supplied@, accepts@),
{
    let mut message = owned("no implementation of `");
    push_str(&mut message, interface);
    push_str(&mut message, "` for `");
    push_str(&mut message, receiver);
    push_str(&mut message, "` accepts ");
    push_str(&mut message, supplied);
    let mut label = owned("`");
    push_str(&mut label, name);
    push_str(&mut label, "` was given ");
    push_str(&mut label, supplied);
    let mut d = error_at(NO_MATCHING_IMPLEMENTATION, message, span, label);
    add_accepting_labels(&mut d, accepts, "this one accepts ");
    add_note(
        &mut d,
        owned(
            "these are one method at several instantiations of one interface, and the argument types choose between them \u{2014} so an argument that fits none of them names no method",
        ),
    );
    assert(d@ =~= no_matching_instance_view(span, name@, receiver@, interface@, supplied@, accepts@));
    d
}

// ---------------------------------------------------------------------------
// Const patterns
// ---------------------------------------------------------------------------

/// The const parameter a normal form is, when it is one and nothing more:
/// no constant, and one term with coefficient one.
pub open spec fn bare_param(form: NormalFormView) -> Option<DefId> {
    if form.constant == 0 && form.terms.len() == 1 && form.terms[0].1 == 1 {
        Some(form.terms[0].0)
    } else {
        None
    }
}

/// The const parameter a pattern is, when it is one and nothing more:
/// `WIDTH` matches and solves, `WIDTH + 1` and `2 * WIDTH` do not.
pub fn bare_const_param(pattern: &NormalForm) -> (r: Option<DefId>)
    ensures
        r == bare_param(pattern@),
{
    if pattern.constant != 0 || pattern.terms.len() != 1 {
        return None;
    }
    let (def, coefficient) = pattern.terms[0];
    if coefficient != 1 {
        return None;
    }
    Some(def)
}


// ---------------------------------------------------------------------------
// Reports on values
// ---------------------------------------------------------------------------

/// The report for a value interpolated that cannot be rendered.
pub open spec fn not_displayable_view(span: Span, ty: Seq<char>) -> DiagnosticView {
    with_note(
        error_view(
            NOT_DISPLAYABLE,
            "`"@ + ty + "` cannot be interpolated: it does not implement `Display`"@,
            span,
            "this is `"@ + ty + "`"@,
        ),
        "an interpolation renders its value through `Display`. A nullable does not implement it until it is narrowed, and a value that implements nothing needs an `implements Display:` block before it can be printed"@,
    )
}

/// A value interpolated into an `f"..."` that cannot be rendered: the
/// message names the interface, which is the thing the author can act on.
pub fn not_displayable(span: Span, ty: &str) -> (d: Diagnostic)
    ensures
        d@ == not_displayable_view(span, ty@),
{
    let mut message = owned("`");
    push_str(&mut message, ty);
    push_str(&mut message, "` cannot be interpolated: it does not implement `Display`");
    let mut label = owned("this is `");
    push_str(&mut label, ty);
    push_str(&mut label, "`");
    let mut d = error_at(NOT_DISPLAYABLE, message, span, label);
    add_note(
        &mut d,
        owned(
            "an interpolation renders its value through `Display`. A nullable does not implement it until it is narrowed, and a value that implements nothing needs an `implements Display:` block before it can be printed",
        ),
    );
    assert(d@ =~= not_displayable_view(span, ty@));
    d
}

/// The report for `print` or `write` called with other than one value.
pub open spec fn print_takes_one_value_view(span: Span, name: Seq<char>, supplied: nat) -> DiagnosticView {
    with_note(
        error_view(
            NOT_DISPLAYABLE,
            "`"@ + name + "` takes one value"@,
            span,
            decimal(supplied) + " arguments were supplied"@,
        ),
        if supplied == 0 {
            "a blank line is `"@ + name + "(\"\")`: there are no default arguments"@
        } else {
            "interpolate instead: `"@ + name + "(f\"\u{2026} {value}\")`"@
        },
    )
}

/// A call to `print` or `write` that does not supply one value. With none,
/// the note says how a blank line is written; with several, that the values
/// go into one interpolation.
pub fn print_takes_one_value(span: Span, name: &str, supplied: usize) -> (d: Diagnostic)
    ensures
        d@ == print_takes_one_value_view(span, name@, supplied as nat),
{
    let mut note = String::new();
    if supplied == 0 {
        push_str(&mut note, "a blank line is `");
        push_str(&mut note, name);
        push_str(&mut note, "(\"\")`: there are no default arguments");
    } else {
        push_str(&mut note, "interpolate instead: `");
        push_str(&mut note, name);
        push_str(&mut note, "(f\"\u{2026} {value}\")`");
    }
    let mut message = owned("`");
    push_str(&mut message, name);
    push_str(&mut message, "` takes one value");
    let mut label = String::new();
    push_decimal(&mut label, supplied);
    push_str(&mut label, " arguments were supplied");
    let mut d = error_at(NOT_DISPLAYABLE, message, span, label);
    add_note(&mut d, note);
    assert(d@ =~= print_takes_one_value_view(span, name@, supplied as nat));
    d
}

/// The report for two elements of an array literal that do not unify.
/// `expected` and `found` come rendered, since either may be a phrase
/// rather than a type.
pub open spec fn array_element_mismatch_view(span: Span, expected: Seq<char>, found: Seq<char>, fixed_at: Span) -> DiagnosticView {
    with_note(
        with_label(
            error_view(
                ARRAY_ELEMENT_MISMATCH,
                "the elements of this array literal do not have one type"@,
                span,
                "this is "@ + found,
            ),
            fixed_at,
            "this is "@ + expected,
            false,
        ),
        "an array literal is an `Array of T` where `T` is the unification of its elements, and there is no implicit numeric conversion: write the suffix, the `as`, or the literal you meant"@,
    )
}

/// Two elements of an array literal that do not unify: primary on the one
/// that differs, secondary on the one that fixed the type, since neither is
/// more right than the other.
pub fn array_element_mismatch(span: Span, expected: &str, found: &str, fixed_at: Span) -> (d: Diagnostic)
    ensures
        d@ == array_element_mismatch_view(span, expected@, found@, fixed_at),
{
    let mut label = owned("this is ");
    push_str(&mut label, found);
    let mut second = owned("this is ");
    push_str(&mut second, expected);
    let mut d = error_at(
        ARRAY_ELEMENT_MISMATCH,
        owned("the elements of this array literal do not have one type"),
        span,
        label,
    );
    add_label(&mut d, fixed_at, second, false);
    add_note(
        &mut d,
        owned(
            "an array literal is an `Array of T` where `T` is the unification of its elements, and there is no implicit numeric conversion: write the suffix, the `as`, or the literal you meant",
        ),
    );
    assert(d@ =~= array_element_mismatch_view(span, expected@, found@, fixed_at));
    d
}

/// The report for `[]` where nothing says what it holds.
pub open spec fn empty_array_no_type_view(span: Span) -> DiagnosticView {
    with_note(
        error_view(
            EMPTY_ARRAY_NO_TYPE,
            "this empty array literal has no element type"@,
            span,
            "nothing here says what `[]` holds"@,
        ),
        "an empty literal takes its element type from the expected type at its position, and there is none here: annotate the binding \u{2014} `let xs: Array of F64 be []`"@,
    )
}

/// `[]` where nothing says what it holds: the fix is the annotation, and the
/// note says where it goes.
pub fn empty_array_no_type(span: Span) -> (d: Diagnostic)
    ensures
        d@ == empty_array_no_type_view(span),
{
    let mut d = error_at(
        EMPTY_ARRAY_NO_TYPE,
        owned("this empty array literal has no element type"),
        span,
        owned("nothing here says what `[]` holds"),
    );
    add_note(
        &mut d,
        owned(
            "an empty literal takes its element type from the expected type at its position, and there is none here: annotate the binding \u{2014} `let xs: Array of F64 be []`",
        ),
    );
    d
}

/// The report for a range written as an index.
pub open spec fn range_index_needs_slice_view(span: Span, ty: Seq<char>) -> DiagnosticView {
    with_note(
        error_view(
            RANGE_INDEX_NEEDS_SLICE,
            "a range index would produce a slice, and there is no `Slice` type"@,
            span,
            "slicing a `"@ + ty + "` is not implemented"@,
        ),
        "`a[1..5]` is a `Slice of T` \u{2014} a borrow and a length, which does not copy \u{2014} and this compiler declares no such type. Index one element at a time, or iterate: `xs.iterate().skip(1).take(2)`"@,
    )
}

/// A range written as an index: the message names the missing type, since
/// there is no block the author can write to make it work.
pub fn range_index_needs_slice(span: Span, ty: &str) -> (d: Diagnostic)
    ensures
        d@ == range_index_needs_slice_view(span, ty@),
{
    let mut label = owned("slicing a `");
    push_str(&mut label, ty);
    push_str(&mut label, "` is not implemented");
    let mut d = error_at(
        RANGE_INDEX_NEEDS_SLICE,
        owned("a range index would produce a slice, and there is no `Slice` type"),
        span,
        label,
    );
    add_note(
        &mut d,
        owned(
            "`a[1..5]` is a `Slice of T` \u{2014} a borrow and a length, which does not copy \u{2014} and this compiler declares no such type. Index one element at a time, or iterate: `xs.iterate().skip(1).take(2)`",
        ),
    );
    d
}

/// The report for a class of inference variables that never got a type.
pub open spec fn cannot_infer_view(span: Span) -> DiagnosticView {
    with_note(
        error_view(
            TYPE_ANNOTATIONS_NEEDED,
            "the type of this value cannot be inferred"@,
            span,
            "no annotation and nothing to infer from"@,
        ),
        "inference is local to one body and works from the root of a type outward, so a value whose type is a hole inside a known constructor needs the annotation written"@,
    )
}

/// A value whose type nothing in its body pins down.
pub fn cannot_infer(span: Span) -> (d: Diagnostic)
    ensures
        d@ == cannot_infer_view(span),
{
    let mut d = error_at(
        TYPE_ANNOTATIONS_NEEDED,
        owned("the type of this value cannot be inferred"),
        span,
        owned("no annotation and nothing to infer from"),
    );
    add_note(
        &mut d,
        owned(
            "inference is local to one body and works from the root of a type outward, so a value whose type is a hole inside a known constructor needs the annotation written",
        ),
    );
    d
}

/// The report for an operator whose operand's type implements nothing it
/// could dispatch to.
pub open spec fn no_operator_implementation_view(
    span: Span,
    symbol: Seq<char>,
    ty: Seq<char>,
    interface: Seq<char>,
) -> DiagnosticView {
    with_note(
        error_view(
            NO_OPERATOR_IMPLEMENTATION,
            "`"@ + ty + "` does not implement `"@ + interface + "`"@,
            span,
            "`"@ + symbol + "` needs `"@ + interface + "` and `"@ + ty + "` has no implementation of it"@,
        ),
        "every operator is an interface method: the block \n         `"@ + ty + " implements "@ + interface
            + ":` is what gives `"@ + ty + "` this operator"@,
    )
}

/// An operator whose operand implements nothing it could dispatch to: the
/// message names the block the author would have to write.
pub fn no_operator_implementation(span: Span, symbol: &str, ty: &str, interface: &str) -> (d: Diagnostic)
    ensures
        d@ == no_operator_implementation_view(span, symbol@, ty@, interface@),
{
    let mut message = owned("`");
    push_str(&mut message, ty);
    push_str(&mut message, "` does not implement `");
    push_str(&mut message, interface);
    push_str(&mut message, "`");
    let mut label = owned("`");
    push_str(&mut label, symbol);
    push_str(&mut label, "` needs `");
    push_str(&mut label, interface);
    push_str(&mut label, "` and `");
    push_str(&mut label, ty);
    push_str(&mut label, "` has no implementation of it");
    let mut note = owned("every operator is an interface method: the block \n         `");
    push_str(&mut note, ty);
    push_str(&mut note, " implements ");
    push_str(&mut note, interface);
    push_str(&mut note, ":` is what gives `");
    push_str(&mut note, ty);
    push_str(&mut note, "` this operator");
    let mut d = error_at(NO_OPERATOR_IMPLEMENTATION, message, span, label);
    add_note(&mut d, note);
    assert(d@ =~= no_operator_implementation_view(span, symbol@, ty@, interface@));
    d
}

// ---------------------------------------------------------------------------
// Operators and arguments
// ---------------------------------------------------------------------------

/// The interface an arithmetic operator dispatches to, and the method's name
/// on it.
pub open spec fn operator_interface(op: BinaryOp) -> Option<(Seq<char>, Seq<char>)> {
    match op {
        BinaryOp::Add => Some(("Add"@, "add"@)),
        BinaryOp::Sub => Some(("Sub"@, "sub"@)),
        BinaryOp::Mul => Some(("Mul"@, "mul"@)),
        BinaryOp::Div => Some(("Div"@, "div"@)),
        BinaryOp::Rem => Some(("Rem"@, "rem"@)),
        BinaryOp::Pow => Some(("Pow"@, "pow"@)),
        BinaryOp::MatMul => Some(("MatMul"@, "matmul"@)),
        _ => None,
    }
}

/// The interface and method an arithmetic operator is a call of; a
/// comparison or a short-circuit operator is none.
pub fn binary_operator(op: BinaryOp) -> (r: Option<(&'static str, &'static str)>)
    ensures
        match r {
            Some((interface, method)) => operator_interface(op) == Some((interface@, method@)),
            None => operator_interface(op) is None,
        },
{
    match op {
        BinaryOp::Add => Some(("Add", "add")),
        BinaryOp::Sub => Some(("Sub", "sub")),
        BinaryOp::Mul => Some(("Mul", "mul")),
        BinaryOp::Div => Some(("Div", "div")),
        BinaryOp::Rem => Some(("Rem", "rem")),
        BinaryOp::Pow => Some(("Pow", "pow")),
        BinaryOp::MatMul => Some(("MatMul", "matmul")),
        _ => None,
    }
}

/// For each declared generic parameter, the argument that says nothing:
/// the error type for a type parameter, an erroneous argument for a const
/// one. An erroneous type agrees with whatever it meets, so a type with
/// these arguments fits any instance and asserts none.
pub open spec fn unknown_arg(kind: GenericParamKind) -> ArgView {
    match kind {
        GenericParamKind::Type { .. } => ArgView::Type(Ty(0)),
        GenericParamKind::Const => ArgView::Error,
    }
}

/// The arguments of a generic type named with none written.
pub fn unknown_args(declared: &[GenericParam]) -> (args: Vec<GenericArg>)
    ensures
        args@.len() == declared@.len(),
        forall|i: int| 0 <= i < args@.len() ==> (#[trigger] args@[i])@ == unknown_arg(declared@[i].kind),
{
    let mut args: Vec<GenericArg> = Vec::new();
    let mut i: usize = 0;
    while i < declared.len()
        invariant
            i <= declared@.len(),
            args@.len() == i,
            forall|k: int| 0 <= k < i ==> (#[trigger] args@[k])@ == unknown_arg(declared@[k].kind),
        decreases declared@.len() - i,
    {
        match &declared[i].kind {
            GenericParamKind::Type { .. } => args.push(GenericArg::Type(Ty::error())),
            GenericParamKind::Const => args.push(GenericArg::Error),
        }
        i = i + 1;
    }
    args
}

// ---------------------------------------------------------------------------
// Where a number may go
// ---------------------------------------------------------------------------

/// What this phase can say about a type a number is being put in.
#[derive(Debug, Clone, Copy, PartialEq, Eq, Structural)]
pub enum Shape {
    /// One of the integer primitives.
    Integer,
    /// One of the floating primitives.
    Float,
    /// A type no number has, and this phase is sure.
    NotANumber,
    /// This phase cannot classify it, and admits.
    Unanswerable,
}

/// What a number put in the type at `t` meets: a tuple, closure, unit,
/// borrow or interface object is no number, a nullable is answered by its
/// payload, a parameter, a `Self` or an erroneous type is unanswerable, and
/// a name is classified by the prelude's lists, its arguments and its
/// declaration. With no prelude, nothing is answered.
pub open spec fn numeric_shape_of(
    entries: Seq<(Seq<char>, DefId)>,
    kinds: Seq<KindView>,
    defs: Seq<Definition>,
    t: int,
) -> Shape
    decreases t,
{
    if t < 0 || t >= kinds.len() || lookup(entries, "Bool"@) is None || opaque(kinds, Ty(t as usize)) {
        Shape::Unanswerable
    } else {
        match kinds[t] {
            KindView::Nullable(inner) => if inner.0 < t {
                numeric_shape_of(entries, kinds, defs, inner.0 as int)
            } else {
                Shape::Unanswerable
            },
            KindView::Named { def, args } => named_shape_of(entries, kinds, defs, def, args, t),
            KindView::Unit | KindView::Tuple(_) | KindView::Closure { .. } | KindView::Borrowed { .. }
            | KindView::Object { .. } => Shape::NotANumber,
            _ => Shape::Unanswerable,
        }
    }
}

/// The shape of a name: the prelude's integer, floating and not-numeric
/// lists first, then a name applied to arguments is a container, then a
/// record or a choice is no number, and any other name is unanswerable.
pub open spec fn named_shape_of(
    entries: Seq<(Seq<char>, DefId)>,
    kinds: Seq<KindView>,
    defs: Seq<Definition>,
    def: DefId,
    args: Seq<ArgView>,
    t: int,
) -> Shape {
    let ty = Ty(t as usize);
    if is_any(entries, kinds, ty, integer_names()) {
        Shape::Integer
    } else if is_any(entries, kinds, ty, float_names()) {
        Shape::Float
    } else if is_any(entries, kinds, ty, not_numeric_names()) {
        Shape::NotANumber
    } else if args.len() > 0 {
        Shape::NotANumber
    } else {
        match definition_of(defs, def) {
            Some(d) => if d.kind == DefKind::Record || d.kind == DefKind::Choice {
                Shape::NotANumber
            } else {
                Shape::Unanswerable
            },
            None => Shape::Unanswerable,
        }
    }
}

/// What this phase can say about a type a number is being put in.
pub fn numeric_shape(prelude: &Prelude, types: &Types, defs: &[Definition], target: Ty) -> (s: Shape)
    requires
        types.wf(),
        types.valid(target),
    ensures
        s == numeric_shape_of(prelude@, types@, defs@, target.0 as int),
    decreases target.0,
{
    if !prelude.is_available() || is_opaque(types, target) {
        return Shape::Unanswerable;
    }
    match types.kind(target) {
        TyKind::Unit | TyKind::Tuple(_) | TyKind::Closure { .. } | TyKind::Borrowed { .. } | TyKind::Object {
            ..
        } => Shape::NotANumber,
        TyKind::Nullable(inner) => {
            proof {
                assert(operands(types@[target.0 as int])[0] == *inner);
            }
            numeric_shape(prelude, types, defs, *inner)
        },
        TyKind::Error | TyKind::Param { .. } | TyKind::SelfType { .. } | TyKind::SelfAssoc { .. } => Shape::Unanswerable,
        TyKind::Named { def, args } => named_shape(prelude, types, defs, *def, args.len(), target),
    }
}

/// [`numeric_shape`] for a name.
fn named_shape(prelude: &Prelude, types: &Types, defs: &[Definition], def: DefId, n_args: usize, target: Ty) -> (s: Shape)
    requires
        types.wf(),
        types.valid(target),
        types@[target.0 as int] matches KindView::Named { def: d, args } && d == def && args.len() == n_args,
    ensures
        s == (match types@[target.0 as int] {
            KindView::Named { def, args } => named_shape_of(prelude@, types@, defs@, def, args, target.0 as int),
            _ => Shape::Unanswerable,
        }),
{
    if prelude.is_integer(types, target) {
        return Shape::Integer;
    }
    if prelude.is_float(types, target) {
        return Shape::Float;
    }
    if prelude.is_definitely_not_numeric(types, target) {
        return Shape::NotANumber;
    }
    if n_args > 0 {
        return Shape::NotANumber;
    }
    match find_definition(defs, def) {
        Some(d) => if d.kind == DefKind::Record || d.kind == DefKind::Choice {
            Shape::NotANumber
        } else {
            Shape::Unanswerable
        },
        None => Shape::Unanswerable,
    }
}

/// Whether a literal of this kind agrees to the type whose shape is
/// `shape`: an integer is exact in every numeric type, a float only in a
/// floating one, and `null` in none, the nullable having been taken off
/// before the question is asked.
pub open spec fn admits(kind: Numeric, shape: Shape) -> bool {
    match kind {
        Numeric::Integer => shape != Shape::NotANumber,
        Numeric::Float => shape == Shape::Float || shape == Shape::Unanswerable,
        Numeric::Null => false,
    }
}

/// Whether a literal's variable will agree to the type `target`, its
/// aliases already expanded. A variable that is no literal (`kind` is
/// `None`) takes what it is given, as does a type this phase cannot
/// classify, and anything when there is no prelude.
pub fn literal_admits(prelude: &Prelude, types: &Types, defs: &[Definition], kind: Option<Numeric>, target: Ty) -> (r:
    bool)
    requires
        types.wf(),
        types.valid(target),
    ensures
        r == match kind {
            None => true,
            Some(k) => opaque(types@, target) || lookup(prelude@, "Bool"@) is None || admits(
                k,
                numeric_shape_of(prelude@, types@, defs@, target.0 as int),
            ),
        },
{
    let kind = match kind {
        None => {
            return true;
        },
        Some(k) => k,
    };
    if is_opaque(types, target) || !prelude.is_available() {
        return true;
    }
    let shape = numeric_shape(prelude, types, defs, target);
    match kind {
        Numeric::Integer => shape != Shape::NotANumber,
        Numeric::Float => shape == Shape::Float || shape == Shape::Unanswerable,
        Numeric::Null => false,
    }
}

/// How a literal whose type is still open is named in a message.
pub open spec fn numeric_name_text(kind: Option<Numeric>) -> Seq<char> {
    match kind {
        Some(Numeric::Integer) => "an integer literal"@,
        Some(Numeric::Float) => "a floating-point literal"@,
        Some(Numeric::Null) => "`null`"@,
        None => "a value of an undetermined type"@,
    }
}

/// How a literal whose type is still open is named in a message, by what
/// it came from.
pub fn numeric_name(kind: Option<Numeric>) -> (name: &'static str)
    ensures
        name@ == numeric_name_text(kind),
{
    match kind {
        Some(Numeric::Integer) => "an integer literal",
        Some(Numeric::Float) => "a floating-point literal",
        Some(Numeric::Null) => "`null`",
        None => "a value of an undetermined type",
    }
}

// ---------------------------------------------------------------------------
// Calls and operands
// ---------------------------------------------------------------------------

/// Whether an operator's result type is one this phase can name: a prelude
/// number, or a type it cannot classify. A record is not, and neither is
/// anything else the prelude names.
pub open spec fn operand_type(entries: Seq<(Seq<char>, DefId)>, kinds: Seq<KindView>, ty: Ty) -> bool {
    ||| mentions_error(kinds, ty.0 as int)
    ||| lookup(entries, "Bool"@) is None
    ||| is_any(entries, kinds, ty, integer_names())
    ||| is_any(entries, kinds, ty, float_names())
    ||| !(kinds[ty.0 as int] is Named)
}

/// Whether an operator's result type is one this phase can name.
pub fn is_operand_type(prelude: &Prelude, types: &Types, ty: Ty) -> (r: bool)
    requires
        types.wf(),
        types.valid(ty),
    ensures
        r == operand_type(prelude@, types@, ty),
{
    types.references_error(ty) || !prelude.is_available() || prelude.is_numeric(types, ty) || !is_prelude_named(
        types,
        ty,
    )
}

/// The generic parameter a parameter's type is, directly or behind one
/// borrow, and whether it was behind the borrow.
pub open spec fn root_param_of(kinds: Seq<KindView>, ty: Ty) -> Option<(DefId, bool)> {
    match kinds[ty.0 as int] {
        KindView::Param { def } => Some((def, false)),
        KindView::Borrowed { inner, .. } => match kinds[inner.0 as int] {
            KindView::Param { def } => Some((def, true)),
            _ => None,
        },
        _ => None,
    }
}

/// The generic parameter a parameter's type is, directly or behind one
/// borrow: the positions a root-level instantiation can read an argument's
/// type into.
pub fn root_param(types: &Types, ty: Ty) -> (r: Option<(DefId, bool)>)
    requires
        types.wf(),
        types.valid(ty),
    ensures
        r == root_param_of(types@, ty),
{
    match types.kind(ty) {
        TyKind::Param { def } => Some((*def, false)),
        TyKind::Borrowed { inner, .. } => {
            proof {
                assert(operands(types@[ty.0 as int])[0] == *inner);
            }
            match types.kind(*inner) {
                TyKind::Param { def } => Some((*def, true)),
                _ => None,
            }
        },
        _ => None,
    }
}

/// The first parameter from `i` on whose definition is named `label`.
pub open spec fn first_param_named(defs: Seq<Definition>, params: Seq<(DefId, Ty)>, label: Seq<char>, i: int) -> Option<int>
    decreases params.len() - i,
{
    if i < 0 || i >= params.len() {
        None
    } else if definition_of(defs, params[i].0) matches Some(d) && d.name@ == label {
        Some(i)
    } else {
        first_param_named(defs, params, label, i + 1)
    }
}

/// The parameter an argument at `at` fills: the one its label names, or its
/// own position when it has no label or the label names none; and none when
/// that is past the last parameter.
pub open spec fn argument_slot(defs: Seq<Definition>, params: Seq<(DefId, Ty)>, label: Option<Seq<char>>, at: int) -> Option<int> {
    let index = match label {
        Some(l) => match first_param_named(defs, params, l, 0) {
            Some(p) => p,
            None => at,
        },
        None => at,
    };
    if index < params.len() {
        Some(index)
    } else {
        None
    }
}

/// The first parameter named `label`.
fn param_named(defs: &[Definition], params: &[(DefId, Ty)], label: &str) -> (r: Option<usize>)
    ensures
        match r {
            Some(p) => first_param_named(defs@, params@, label@, 0) == Some(p as int),
            None => first_param_named(defs@, params@, label@, 0) is None,
        },
{
    let mut i: usize = 0;
    while i < params.len()
        invariant
            i <= params@.len(),
            first_param_named(defs@, params@, label@, 0) == first_param_named(defs@, params@, label@, i as int),
        decreases params@.len() - i,
    {
        match find_definition(defs, params[i].0) {
            Some(d) => {
                if str_eq(d.name.as_str(), label) {
                    return Some(i);
                }
            },
            None => {},
        }
        i = i + 1;
    }
    None
}

/// For each argument, the parameter it fills: by label when it has one that
/// names a parameter, by position otherwise, and none past the last.
/// `labels` are the arguments' labels in order.
pub fn argument_order(defs: &[Definition], params: &[(DefId, Ty)], labels: &[Option<String>]) -> (out: Vec<Option<usize>>)
    ensures
        out@.len() == labels@.len(),
        forall|at: int|
            0 <= at < out@.len() ==> (match #[trigger] out@[at] {
                Some(p) => Some(p as int),
                None => None,
            }) == argument_slot(
                defs@,
                params@,
                match labels@[at] {
                    Some(l) => Some(l@),
                    None => None,
                },
                at,
            ),
{
    let mut out: Vec<Option<usize>> = Vec::new();
    let mut at: usize = 0;
    while at < labels.len()
        invariant
            at <= labels@.len(),
            out@.len() == at,
            forall|k: int|
                0 <= k < at ==> (match #[trigger] out@[k] {
                    Some(p) => Some(p as int),
                    None => None,
                }) == argument_slot(
                    defs@,
                    params@,
                    match labels@[k] {
                        Some(l) => Some(l@),
                        None => None,
                    },
                    k,
                ),
        decreases labels@.len() - at,
    {
        let index = match &labels[at] {
            Some(label) => match param_named(defs, params, label.as_str()) {
                Some(p) => p,
                None => at,
            },
            None => at,
        };
        if index < params.len() {
            out.push(Some(index));
        } else {
            out.push(None);
        }
        at = at + 1;
    }
    out
}

/// The output function `def` is, when it is the prelude's `print` or
/// `write`.
pub open spec fn output_name(entries: Seq<(Seq<char>, DefId)>, def: DefId) -> Option<Seq<char>> {
    if lookup(entries, output_names()[0]) == Some(def) {
        Some(output_names()[0])
    } else if lookup(entries, output_names()[1]) == Some(def) {
        Some(output_names()[1])
    } else {
        None
    }
}

/// `print` and `write` take one value: a call to either with another number
/// of arguments is reported.
pub fn output_is_unary(prelude: &Prelude, def: DefId, supplied: usize, span: Span) -> (r: Option<Diagnostic>)
    ensures
        match output_name(prelude@, def) {
            Some(name) => if supplied == 1 {
                r is None
            } else {
                r matches Some(d) && d@ == print_takes_one_value_view(span, name, supplied as nat)
            },
            None => r is None,
        },
{
    let name = match prelude.unary_output(def) {
        None => {
            proof {
                assert(lookup(prelude@, output_names()[0]) != Some(def));
                assert(lookup(prelude@, output_names()[1]) != Some(def));
            }
            return None;
        },
        Some(name) => name,
    };
    proof {
        assert(output_names().len() == 2);
        let k = choose|k: int|
            0 <= k < output_names().len() && output_names()[k] == name@ && lookup(
                prelude@,
                #[trigger] output_names()[k],
            ) == Some(def) && forall|j: int|
                0 <= j < k ==> lookup(prelude@, #[trigger] output_names()[j]) != Some(def);
        if k == 1 {
            assert(lookup(prelude@, output_names()[0]) != Some(def));
        }
        assert(output_name(prelude@, def) == Some(name@));
    }
    if supplied == 1 {
        return None;
    }
    Some(print_takes_one_value(span, name, supplied))
}

} // verus!
