//! What the checker reports: a diagnostic with its code, message, labels,
//! notes and suggested fixes; the reports the const-argument phase makes;
//! and text that diagnostics share, such as a list of names as a sentence
//! reads it.

use vstd::prelude::*;

use crate::codes::{Code, NOT_A_CONST_EXPRESSION};
use crate::fold::{error_site, ConstEvalError};
use crate::infer::Span;
use crate::assign::Definition;
use crate::items::{definition_of, find_definition, increasing, insert_sorted};
use crate::text::{push_signed_decimal, push_str, signed_decimal};
use crate::ty::{DefId, NormalForm, NormalFormView};

verus! {

/// A name in backquotes.
pub open spec fn quoted(name: Seq<char>) -> Seq<char> {
    "`"@ + name + "`"@
}

/// The names, quoted, with `", "` between them.
pub open spec fn comma_joined(names: Seq<Seq<char>>) -> Seq<char>
    decreases names.len(),
{
    if names.len() == 0 {
        seq![]
    } else if names.len() == 1 {
        quoted(names[0])
    } else {
        comma_joined(names.drop_last()) + ", "@ + quoted(names.last())
    }
}

/// `` `a` ``, `` `a` and `b` ``, `` `a`, `b` and `c` ``.
pub open spec fn listed(names: Seq<Seq<char>>) -> Seq<char> {
    if names.len() == 0 {
        seq![]
    } else if names.len() == 1 {
        quoted(names[0])
    } else {
        comma_joined(names.drop_last()) + " and "@ + quoted(names.last())
    }
}

/// The names as a sentence lists them: each in backquotes, the last after
/// `and`, the others separated by commas.
pub fn list(names: &[String]) -> (out: String)
    ensures
        out@ == listed(names@.map_values(|s: String| s@)),
{
    let ghost ns = names@.map_values(|s: String| s@);
    let mut out = String::new();
    let n = names.len();
    if n == 0 {
        return out;
    }
    if n == 1 {
        push_str(&mut out, "`");
        push_str(&mut out, names[0].as_str());
        push_str(&mut out, "`");
        return out;
    }
    let mut k: usize = 0;
    while k < n - 1
        invariant
            n == names@.len(),
            n >= 2,
            k <= n - 1,
            ns == names@.map_values(|s: String| s@),
            out@ == comma_joined(ns.take(k as int)),
        decreases n - 1 - k,
    {
        if k > 0 {
            push_str(&mut out, ", ");
        }
        push_str(&mut out, "`");
        push_str(&mut out, names[k].as_str());
        push_str(&mut out, "`");
        proof {
            assert(ns.take(k + 1).drop_last() =~= ns.take(k as int));
            if k == 0 {
                assert(comma_joined(ns.take(0)) == Seq::<char>::empty());
            }
        }
        k = k + 1;
    }
    push_str(&mut out, " and ");
    push_str(&mut out, "`");
    push_str(&mut out, names[n - 1].as_str());
    push_str(&mut out, "`");
    proof {
        assert(ns.drop_last() =~= ns.take(n - 1));
    }
    out
}

// ---------------------------------------------------------------------------
// Diagnostics
// ---------------------------------------------------------------------------

/// A span with a message: the primary label says what is wrong there, a
/// secondary one what else is involved.
#[derive(Debug)]
pub struct Label {
    pub span: Span,
    pub message: String,
    pub primary: bool,
}

/// A fix: replace the text at `span` with `replacement`.
#[derive(Debug)]
pub struct Suggestion {
    pub span: Span,
    pub replacement: String,
    pub message: String,
}

/// An error the checker reports.
#[derive(Debug)]
pub struct Diagnostic {
    pub code: Code,
    pub message: String,
    pub labels: Vec<Label>,
    pub notes: Vec<String>,
    pub suggestions: Vec<Suggestion>,
}

/// What a [`Label`] holds.
pub ghost struct LabelView {
    pub span: Span,
    pub message: Seq<char>,
    pub primary: bool,
}

/// What a [`Suggestion`] holds.
pub ghost struct SuggestionView {
    pub span: Span,
    pub replacement: Seq<char>,
    pub message: Seq<char>,
}

/// What a [`Diagnostic`] holds.
#[verifier::ext_equal]
pub ghost struct DiagnosticView {
    pub code: u16,
    pub message: Seq<char>,
    pub labels: Seq<LabelView>,
    pub notes: Seq<Seq<char>>,
    pub suggestions: Seq<SuggestionView>,
}

impl View for Label {
    type V = LabelView;

    open spec fn view(&self) -> LabelView {
        LabelView { span: self.span, message: self.message@, primary: self.primary }
    }
}

impl View for Suggestion {
    type V = SuggestionView;

    open spec fn view(&self) -> SuggestionView {
        SuggestionView { span: self.span, replacement: self.replacement@, message: self.message@ }
    }
}

impl View for Diagnostic {
    type V = DiagnosticView;

    open spec fn view(&self) -> DiagnosticView {
        DiagnosticView {
            code: self.code.0,
            message: self.message@,
            labels: self.labels@.map_values(|l: Label| l@),
            notes: self.notes@.map_values(|n: String| n@),
            suggestions: self.suggestions@.map_values(|s: Suggestion| s@),
        }
    }
}

/// An error with one primary label.
pub open spec fn error_view(code: u16, message: Seq<char>, span: Span, label: Seq<char>) -> DiagnosticView {
    DiagnosticView {
        code,
        message,
        labels: seq![LabelView { span, message: label, primary: true }],
        notes: seq![],
        suggestions: seq![],
    }
}

/// `view` with one more note.
pub open spec fn with_note(view: DiagnosticView, note: Seq<char>) -> DiagnosticView {
    DiagnosticView { notes: view.notes.push(note), ..view }
}

fn owned(s: &str) -> (out: String)
    ensures
        out@ == s@,
{
    s.to_owned()
}

/// An error with one primary label and the given notes.
fn error_with(code: u16, message: &str, span: Span, label: String, notes: Vec<String>) -> (d: Diagnostic)
    ensures
        d@ == (DiagnosticView {
            code,
            message: message@,
            labels: seq![LabelView { span, message: label@, primary: true }],
            notes: notes@.map_values(|n: String| n@),
            suggestions: seq![],
        }),
{
    let ghost label_text = label@;
    let mut labels: Vec<Label> = Vec::new();
    labels.push(Label { span, message: label, primary: true });
    let suggestions: Vec<Suggestion> = Vec::new();
    let d = Diagnostic { code: Code(code), message: owned(message), labels, notes, suggestions };
    assert(d@.labels =~= seq![LabelView { span, message: label_text, primary: true }]);
    assert(d@.suggestions =~= Seq::<SuggestionView>::empty());
    d
}

/// The report for a const argument whose literal is not an integer at all.
pub open spec fn non_integer_literal_view(span: Span, found: Seq<char>) -> DiagnosticView {
    with_note(
        error_view(
            NOT_A_CONST_EXPRESSION,
            "a const argument is an integer expression"@,
            span,
            "this is "@ + found,
        ),
        "const parameters are annotated `Int` or `Shape` and nothing else, so a const argument denotes an integer or a list of them"@,
    )
}

/// A const argument whose literal is not an integer at all; `found` says
/// what it is.
pub fn non_integer_literal(span: Span, found: &str) -> (d: Diagnostic)
    ensures
        d@ == non_integer_literal_view(span, found@),
{
    let mut label = owned("this is ");
    push_str(&mut label, found);
    let mut notes: Vec<String> = Vec::new();
    notes.push(
        owned(
            "const parameters are annotated `Int` or `Shape` and nothing else, so a const argument denotes an integer or a list of them",
        ),
    );
    let d = error_with(NOT_A_CONST_EXPRESSION, "a const argument is an integer expression", span, label, notes);
    assert(d@ =~= non_integer_literal_view(span, found@));
    d
}

/// The report for a const argument whose integer literal carries a suffix.
pub open spec fn suffixed_literal_view(span: Span) -> DiagnosticView {
    DiagnosticView {
        suggestions: seq![
            SuggestionView {
                span,
                replacement: seq![],
                message: "the kind comes from the declaration"@,
            },
        ],
        ..error_view(
            NOT_A_CONST_EXPRESSION,
            "a const argument carries no type suffix"@,
            span,
            "the suffix names a type, and this position has none"@,
        )
    }
}

/// A const argument whose integer literal carries a type suffix. Deleting
/// the suffix is always the fix, and it is offered.
pub fn suffixed_literal(span: Span) -> (d: Diagnostic)
    ensures
        d@ == suffixed_literal_view(span),
{
    let notes: Vec<String> = Vec::new();
    let mut d = error_with(
        NOT_A_CONST_EXPRESSION,
        "a const argument carries no type suffix",
        span,
        owned("the suffix names a type, and this position has none"),
        notes,
    );
    d.suggestions.push(
        Suggestion {
            span,
            replacement: String::new(),
            message: owned("the kind comes from the declaration"),
        },
    );
    assert(d@.notes =~= Seq::<Seq<char>>::empty());
    assert(d@ =~= suffixed_literal_view(span));
    d
}

/// The report for a const argument whose magnitude leaves `i128`.
pub open spec fn literal_too_large_view(span: Span) -> DiagnosticView {
    with_note(
        error_view(
            NOT_A_CONST_EXPRESSION,
            "this const argument is too large"@,
            span,
            "outside the range of a 128-bit signed integer"@,
        ),
        "a const expression is evaluated in `i128`, so every value it can denote is one the compiler can compare exactly"@,
    )
}

/// A const argument whose magnitude leaves `i128`: refused rather than
/// wrapped, since a wrapped value would make the checker assert an equality
/// that is false.
pub fn literal_too_large(span: Span) -> (d: Diagnostic)
    ensures
        d@ == literal_too_large_view(span),
{
    let mut notes: Vec<String> = Vec::new();
    notes.push(
        owned(
            "a const expression is evaluated in `i128`, so every value it can denote is one the compiler can compare exactly",
        ),
    );
    let d = error_with(
        NOT_A_CONST_EXPRESSION,
        "this const argument is too large",
        span,
        owned("outside the range of a 128-bit signed integer"),
        notes,
    );
    assert(d@ =~= literal_too_large_view(span));
    d
}

/// The report for a const expression naming something that did not resolve.
pub open spec fn unresolved_const_param_view(span: Span) -> DiagnosticView {
    error_view(NOT_A_CONST_EXPRESSION, "this name did not resolve"@, span, "reported already"@)
}

/// A const expression naming something that does not resolve. Resolution
/// reported the name already; this gives lowering something to return, and
/// the caller drops it.
pub fn unresolved_const_param(span: Span) -> (d: Diagnostic)
    ensures
        d@ == unresolved_const_param_view(span),
{
    let notes: Vec<String> = Vec::new();
    let d = error_with(NOT_A_CONST_EXPRESSION, "this name did not resolve", span, owned("reported already"), notes);
    assert(d@ =~= unresolved_const_param_view(span));
    d
}

/// The report for `e / k`, which the quotient-free fragment refuses.
pub open spec fn division_is_f1_view(span: Span) -> DiagnosticView {
    error_view(
        NOT_A_CONST_EXPRESSION,
        "a const expression cannot divide yet"@,
        span,
        "division in a const expression is F1"@,
    )
}

/// `e / k`: refused rather than lowered, because the normaliser has no rule
/// for a quotient and normalising it wrongly would assert a false equality.
pub fn division_is_f1(span: Span) -> (d: Diagnostic)
    ensures
        d@ == division_is_f1_view(span),
{
    let notes: Vec<String> = Vec::new();
    let d = error_with(
        NOT_A_CONST_EXPRESSION,
        "a const expression cannot divide yet",
        span,
        owned("division in a const expression is F1"),
        notes,
    );
    assert(d@ =~= division_is_f1_view(span));
    d
}

/// The report for a const expression whose value leaves `i128`, at the
/// expression when the error knows it and at `fallback` otherwise.
pub open spec fn overflowed_view(at: Option<Span>, fallback: Span) -> DiagnosticView {
    with_note(
        error_view(
            NOT_A_CONST_EXPRESSION,
            "this const expression overflows"@,
            match at {
                Some(span) => span,
                None => fallback,
            },
            "the value leaves the range of a 128-bit signed integer"@,
        ),
        "const expressions are evaluated exactly; there is no wrapping, because a type-level value that disagrees with the run-time value it describes is not an approximation"@,
    )
}

/// A const expression whose evaluation left `i128`: refused, not wrapped.
pub fn overflowed(error: ConstEvalError, fallback: Span) -> (d: Diagnostic)
    ensures
        d@ == overflowed_view(error_site(error), fallback),
{
    let span = match error.span() {
        Some(span) => span,
        None => fallback,
    };
    let mut notes: Vec<String> = Vec::new();
    notes.push(
        owned(
            "const expressions are evaluated exactly; there is no wrapping, because a type-level value that disagrees with the run-time value it describes is not an approximation",
        ),
    );
    let d = error_with(
        NOT_A_CONST_EXPRESSION,
        "this const expression overflows",
        span,
        owned("the value leaves the range of a 128-bit signed integer"),
        notes,
    );
    assert(d@ =~= overflowed_view(error_site(error), fallback));
    d
}

// ---------------------------------------------------------------------------
// Building a report
// ---------------------------------------------------------------------------

/// `view` with one more label.
pub open spec fn with_label(view: DiagnosticView, span: Span, message: Seq<char>, primary: bool) -> DiagnosticView {
    DiagnosticView { labels: view.labels.push(LabelView { span, message, primary }), ..view }
}

/// An error with its message and its primary label, and nothing else yet.
pub fn error_at(code: u16, message: String, span: Span, label: String) -> (d: Diagnostic)
    ensures
        d@ == error_view(code, message@, span, label@),
{
    let ghost label_text = label@;
    let mut labels: Vec<Label> = Vec::new();
    labels.push(Label { span, message: label, primary: true });
    let d = Diagnostic {
        code: Code(code),
        message,
        labels,
        notes: Vec::new(),
        suggestions: Vec::new(),
    };
    assert(d@ =~= error_view(code, d@.message, span, label_text));
    d
}

/// Adds a note.
pub fn add_note(d: &mut Diagnostic, note: String)
    ensures
        final(d)@ == with_note(old(d)@, note@),
{
    let ghost text = note@;
    d.notes.push(note);
    assert(d@ =~= with_note(old(d)@, text));
}

/// Adds a label.
pub fn add_label(d: &mut Diagnostic, span: Span, message: String, primary: bool)
    ensures
        final(d)@ == with_label(old(d)@, span, message@, primary),
{
    let ghost text = message@;
    d.labels.push(Label { span, message, primary });
    assert(d@ =~= with_label(old(d)@, span, text, primary));
}

// ---------------------------------------------------------------------------
// Why two normal forms differ
// ---------------------------------------------------------------------------

/// The coefficient of `atom` in the terms: its first term's, or zero.
pub open spec fn coefficient_of(terms: Seq<(DefId, int)>, atom: DefId) -> int
    decreases terms.len(),
{
    if terms.len() == 0 {
        0
    } else if terms[0].0 == atom {
        terms[0].1
    } else {
        coefficient_of(terms.drop_first(), atom)
    }
}

/// Whether a term of the form is over `atom`.
pub open spec fn has_atom(form: NormalFormView, atom: DefId) -> bool {
    exists|i: int| 0 <= i < form.terms.len() && (#[trigger] form.terms[i]).0 == atom
}

/// The name an atom is written with.
pub open spec fn atom_name(defs: Seq<Definition>, atom: DefId) -> Seq<char> {
    definition_of(defs, atom).unwrap().name@
}

/// The names of the atoms with a coefficient on one side only: the left
/// when `on_left`, the right otherwise.
pub open spec fn one_sided(
    defs: Seq<Definition>,
    atoms: Seq<DefId>,
    left: NormalFormView,
    right: NormalFormView,
    on_left: bool,
) -> Seq<Seq<char>>
    decreases atoms.len(),
{
    if atoms.len() == 0 {
        seq![]
    } else {
        let before = one_sided(defs, atoms.drop_last(), left, right, on_left);
        let a = coefficient_of(left.terms, atoms.last());
        let b = coefficient_of(right.terms, atoms.last());
        if (on_left && a != 0 && b == 0) || (!on_left && a == 0 && b != 0) {
            before.push(atom_name(defs, atoms.last()))
        } else {
            before
        }
    }
}

/// A line per atom with a different coefficient on each side.
pub open spec fn differing_lines(
    defs: Seq<Definition>,
    atoms: Seq<DefId>,
    left: NormalFormView,
    right: NormalFormView,
) -> Seq<Seq<char>>
    decreases atoms.len(),
{
    if atoms.len() == 0 {
        seq![]
    } else {
        let before = differing_lines(defs, atoms.drop_last(), left, right);
        let a = coefficient_of(left.terms, atoms.last());
        let b = coefficient_of(right.terms, atoms.last());
        if a != 0 && b != 0 && a != b {
            before.push(
                "`"@ + atom_name(defs, atoms.last()) + "` has coefficient "@ + signed_decimal(a) + " on the left and "@
                    + signed_decimal(b) + " on the right"@,
            )
        } else {
            before
        }
    }
}

/// The first difference between two normal forms, in words, over their
/// atoms in order: atoms on one side only (the common case of two distinct
/// parameters spelled out), then differing coefficients, then differing
/// constants.
pub open spec fn explanation(
    defs: Seq<Definition>,
    atoms: Seq<DefId>,
    left: NormalFormView,
    right: NormalFormView,
) -> Seq<Seq<char>> {
    let only_left = one_sided(defs, atoms, left, right, true);
    let only_right = one_sided(defs, atoms, left, right, false);
    let first: Seq<Seq<char>> = if only_left.len() > 0 && only_right.len() > 0 {
        seq![
            listed(only_left) + " and "@ + listed(only_right)
                + " are distinct const parameters, so no assignment of values"@,
            "makes them equal for every instantiation"@,
        ]
    } else if only_left.len() > 0 {
        seq![listed(only_left) + " appears on the left and not on the right"@]
    } else if only_right.len() > 0 {
        seq![listed(only_right) + " appears on the right and not on the left"@]
    } else {
        seq![]
    };
    let constants: Seq<Seq<char>> = if left.constant != right.constant {
        seq![
            "the constant terms differ: "@ + signed_decimal(left.constant) + " on the left, "@ + signed_decimal(
                right.constant,
            ) + " on the right"@,
        ]
    } else {
        seq![]
    };
    let lines = first + differing_lines(defs, atoms, left, right) + constants;
    if lines.len() == 0 {
        seq!["the two normal forms are not structurally equal"@]
    } else {
        lines
    }
}

/// The views of a list of strings.
pub open spec fn strings_of(lines: Seq<String>) -> Seq<Seq<char>> {
    lines.map_values(|l: String| l@)
}

/// The coefficient of `atom` in the form.
fn coefficient(form: &NormalForm, atom: DefId) -> (c: i128)
    ensures
        c == coefficient_of(form@.terms, atom),
{
    let ghost all = form@.terms;
    let mut i: usize = 0;
    assert(all.skip(0) =~= all);
    while i < form.terms.len()
        invariant
            i <= form.terms@.len(),
            all == form@.terms,
            coefficient_of(all.skip(i as int), atom) == coefficient_of(all, atom),
        decreases form.terms@.len() - i,
    {
        proof {
            assert(all.skip(i as int)[0] == all[i as int]);
            assert(all.skip(i as int).drop_first() =~= all.skip(i + 1));
        }
        if form.terms[i].0 == atom {
            return form.terms[i].1;
        }
        i = i + 1;
    }
    assert(all.skip(i as int).len() == 0);
    0
}

/// Whether `atom` is among `ids`.
fn contains_id(ids: &Vec<DefId>, atom: DefId) -> (r: bool)
    ensures
        r == ids@.contains(atom),
{
    let mut i: usize = 0;
    while i < ids.len()
        invariant
            i <= ids@.len(),
            forall|k: int| 0 <= k < i ==> ids@[k] != atom,
        decreases ids@.len() - i,
    {
        if ids[i] == atom {
            return true;
        }
        i = i + 1;
    }
    false
}

/// The atoms of both forms, each once, in order.
fn union_atoms(left: &NormalForm, right: &NormalForm) -> (atoms: Vec<DefId>)
    ensures
        increasing(atoms@),
        forall|d: DefId| #[trigger] atoms@.contains(d) <==> has_atom(left@, d) || has_atom(right@, d),
{
    let mut atoms: Vec<DefId> = Vec::new();
    let mut i: usize = 0;
    while i < left.terms.len()
        invariant
            i <= left.terms@.len(),
            increasing(atoms@),
            forall|d: DefId| #[trigger] atoms@.contains(d) <==> exists|k: int| 0 <= k < i && left.terms@[k].0 == d,
        decreases left.terms@.len() - i,
    {
        let d = left.terms[i].0;
        if !contains_id(&atoms, d) {
            insert_sorted(&mut atoms, d);
        }
        proof {
            assert forall|x: DefId| #[trigger] atoms@.contains(x) <==> exists|k: int| 0 <= k < i + 1 && left.terms@[k].0 == x by {
                if exists|k: int| 0 <= k < i + 1 && left.terms@[k].0 == x {
                    let k = choose|k: int| 0 <= k < i + 1 && left.terms@[k].0 == x;
                    if k == i {
                        assert(x == d);
                    }
                }
            }
        }
        i = i + 1;
    }
    let mut j: usize = 0;
    while j < right.terms.len()
        invariant
            j <= right.terms@.len(),
            increasing(atoms@),
            forall|d: DefId| #[trigger] atoms@.contains(d) <==> (exists|k: int| 0 <= k < left.terms@.len() && left.terms@[k].0 == d)
                || exists|k: int| 0 <= k < j && right.terms@[k].0 == d,
        decreases right.terms@.len() - j,
    {
        let d = right.terms[j].0;
        if !contains_id(&atoms, d) {
            insert_sorted(&mut atoms, d);
        }
        proof {
            assert forall|x: DefId| #[trigger] atoms@.contains(x) <==> (exists|k: int| 0 <= k < left.terms@.len() && left.terms@[k].0 == x)
                || exists|k: int| 0 <= k < j + 1 && right.terms@[k].0 == x by {
                if exists|k: int| 0 <= k < j + 1 && right.terms@[k].0 == x {
                    let k = choose|k: int| 0 <= k < j + 1 && right.terms@[k].0 == x;
                    if k == j {
                        assert(x == d);
                    }
                }
            }
        }
        j = j + 1;
    }
    proof {
        assert forall|d: DefId| #[trigger] atoms@.contains(d) <==> has_atom(left@, d) || has_atom(right@, d) by {
            if exists|k: int| 0 <= k < left.terms@.len() && left.terms@[k].0 == d {
                let k = choose|k: int| 0 <= k < left.terms@.len() && left.terms@[k].0 == d;
                assert(left@.terms[k].0 == d);
            }
            if exists|k: int| 0 <= k < right.terms@.len() && right.terms@[k].0 == d {
                let k = choose|k: int| 0 <= k < right.terms@.len() && right.terms@[k].0 == d;
                assert(right@.terms[k].0 == d);
            }
            if has_atom(left@, d) {
                let k = choose|k: int| 0 <= k < left@.terms.len() && (#[trigger] left@.terms[k]).0 == d;
                assert(left.terms@[k].0 == d);
            }
            if has_atom(right@, d) {
                let k = choose|k: int| 0 <= k < right@.terms.len() && (#[trigger] right@.terms[k]).0 == d;
                assert(right.terms@[k].0 == d);
            }
        }
    }
    atoms
}

/// Names the difference between two normal forms, in words: which atoms
/// appear on one side only, which have different coefficients, and whether
/// the constants differ; a flat statement when none of these does.
pub fn explain(left: &NormalForm, right: &NormalForm, defs: &[Definition]) -> (lines: Vec<String>)
    requires
        forall|d: DefId| has_atom(left@, d) || has_atom(right@, d) ==> #[trigger] definition_of(defs@, d) is Some,
    ensures
        exists|atoms: Seq<DefId>|
            increasing(atoms) && (forall|d: DefId| #[trigger] atoms.contains(d) <==> has_atom(left@, d) || has_atom(right@, d))
                && strings_of(lines@) == #[trigger] explanation(defs@, atoms, left@, right@),
{
    let atoms = union_atoms(left, right);
    let mut only_left: Vec<String> = Vec::new();
    let mut only_right: Vec<String> = Vec::new();
    let mut differing: Vec<String> = Vec::new();
    let mut i: usize = 0;
    while i < atoms.len()
        invariant
            i <= atoms@.len(),
            forall|d: DefId| #[trigger] atoms@.contains(d) <==> has_atom(left@, d) || has_atom(right@, d),
            forall|d: DefId| has_atom(left@, d) || has_atom(right@, d) ==> #[trigger] definition_of(defs@, d) is Some,
            strings_of(only_left@) == one_sided(defs@, atoms@.take(i as int), left@, right@, true),
            strings_of(only_right@) == one_sided(defs@, atoms@.take(i as int), left@, right@, false),
            strings_of(differing@) == differing_lines(defs@, atoms@.take(i as int), left@, right@),
        decreases atoms@.len() - i,
    {
        let atom = atoms[i];
        proof {
            assert(atoms@.take(i + 1).drop_last() =~= atoms@.take(i as int));
            assert(atoms@.take(i + 1).last() == atom);
            assert(atoms@.contains(atom));
        }
        let a = coefficient(left, atom);
        let b = coefficient(right, atom);
        let name = &find_definition(defs, atom).unwrap().name;
        if a == 0 && b == 0 {
        } else if a == 0 {
            only_right.push(name.clone());
            assert(strings_of(only_right@) =~= one_sided(defs@, atoms@.take(i + 1), left@, right@, false));
        } else if b == 0 {
            only_left.push(name.clone());
            assert(strings_of(only_left@) =~= one_sided(defs@, atoms@.take(i + 1), left@, right@, true));
        } else if a != b {
            let mut line = name.as_str().to_owned();
            let mut text = "`".to_owned();
            push_str(&mut text, line.as_str());
            push_str(&mut text, "` has coefficient ");
            push_signed_decimal(&mut text, a);
            push_str(&mut text, " on the left and ");
            push_signed_decimal(&mut text, b);
            push_str(&mut text, " on the right");
            line = text;
            differing.push(line);
            assert(strings_of(differing@) =~= differing_lines(defs@, atoms@.take(i + 1), left@, right@));
        }
        proof {
            assert(strings_of(only_left@) =~= one_sided(defs@, atoms@.take(i + 1), left@, right@, true));
            assert(strings_of(only_right@) =~= one_sided(defs@, atoms@.take(i + 1), left@, right@, false));
            assert(strings_of(differing@) =~= differing_lines(defs@, atoms@.take(i + 1), left@, right@));
        }
        i = i + 1;
    }
    proof {
        assert(atoms@.take(atoms@.len() as int) =~= atoms@);
    }
    let ghost ol = strings_of(only_left@);
    let ghost or = strings_of(only_right@);
    proof {
        assert(only_left@.map_values(|s: String| s@) =~= ol);
        assert(only_right@.map_values(|s: String| s@) =~= or);
    }
    let ghost expected_first: Seq<Seq<char>> = if ol.len() > 0 && or.len() > 0 {
        seq![
            listed(ol) + " and "@ + listed(or) + " are distinct const parameters, so no assignment of values"@,
            "makes them equal for every instantiation"@,
        ]
    } else if ol.len() > 0 {
        seq![listed(ol) + " appears on the left and not on the right"@]
    } else if or.len() > 0 {
        seq![listed(or) + " appears on the right and not on the left"@]
    } else {
        seq![]
    };
    let mut lines: Vec<String> = Vec::new();
    if only_left.len() > 0 && only_right.len() > 0 {
        let mut first = list(only_left.as_slice());
        push_str(&mut first, " and ");
        let right_list = list(only_right.as_slice());
        push_str(&mut first, right_list.as_str());
        push_str(&mut first, " are distinct const parameters, so no assignment of values");
        lines.push(first);
        lines.push("makes them equal for every instantiation".to_owned());
        assert(strings_of(lines@) =~= expected_first);
    } else if only_left.len() > 0 {
        let mut first = list(only_left.as_slice());
        push_str(&mut first, " appears on the left and not on the right");
        lines.push(first);
        assert(strings_of(lines@) =~= expected_first);
    } else if only_right.len() > 0 {
        let mut first = list(only_right.as_slice());
        push_str(&mut first, " appears on the right and not on the left");
        lines.push(first);
        assert(strings_of(lines@) =~= expected_first);
    } else {
        assert(strings_of(lines@) =~= expected_first);
    }
    let ghost first_lines = strings_of(lines@);
    let mut k: usize = 0;
    while k < differing.len()
        invariant
            k <= differing@.len(),
            strings_of(lines@) == first_lines + strings_of(differing@).take(k as int),
        decreases differing@.len() - k,
    {
        let ghost before = lines@;
        let line = differing[k].clone();
        lines.push(line);
        proof {
            assert(lines@ == before.push(differing@[k as int]));
            assert(strings_of(lines@) =~= strings_of(before).push(differing@[k as int]@));
            assert(strings_of(differing@).take(k + 1) =~= strings_of(differing@).take(k as int).push(differing@[k as int]@));
            assert(strings_of(lines@) =~= first_lines + strings_of(differing@).take(k + 1));
        }
        k = k + 1;
    }
    assert(strings_of(differing@).take(differing@.len() as int) =~= strings_of(differing@));
    let ghost middle = strings_of(lines@);
    assert(middle == expected_first + strings_of(differing@));
    if left.constant != right.constant {
        let mut line = "the constant terms differ: ".to_owned();
        push_signed_decimal(&mut line, left.constant);
        push_str(&mut line, " on the left, ");
        push_signed_decimal(&mut line, right.constant);
        push_str(&mut line, " on the right");
        lines.push(line);
    }
    let ghost with_constants = strings_of(lines@);
    proof {
        let constants: Seq<Seq<char>> = if left@.constant != right@.constant {
            seq![
                "the constant terms differ: "@ + signed_decimal(left@.constant) + " on the left, "@ + signed_decimal(
                    right@.constant,
                ) + " on the right"@,
            ]
        } else {
            seq![]
        };
        assert(with_constants =~= expected_first + strings_of(differing@) + constants);
    }
    if lines.len() == 0 {
        lines.push("the two normal forms are not structurally equal".to_owned());
        assert(strings_of(lines@) =~= seq!["the two normal forms are not structurally equal"@]);
    }
    proof {
        assert(strings_of(lines@) =~= explanation(defs@, atoms@, left@, right@));
    }
    lines
}

/// A form compared with itself has no atom on one side only and no
/// differing coefficient.
proof fn lemma_same_form_agrees(defs: Seq<Definition>, atoms: Seq<DefId>, form: NormalFormView)
    ensures
        one_sided(defs, atoms, form, form, true).len() == 0,
        one_sided(defs, atoms, form, form, false).len() == 0,
        differing_lines(defs, atoms, form, form).len() == 0,
    decreases atoms.len(),
{
    if atoms.len() > 0 {
        lemma_same_form_agrees(defs, atoms.drop_last(), form);
    }
}

/// Two forms that are the same are not explained by a difference: the
/// explanation is the flat statement that they are not structurally equal.
pub proof fn law_same_forms_have_no_difference(defs: Seq<Definition>, atoms: Seq<DefId>, form: NormalFormView)
    ensures
        explanation(defs, atoms, form, form) == seq!["the two normal forms are not structurally equal"@],
{
    lemma_same_form_agrees(defs, atoms, form);
    let lines = seq![] + differing_lines(defs, atoms, form, form) + Seq::<Seq<char>>::empty();
    assert(lines.len() == 0);
}

} // verus!
