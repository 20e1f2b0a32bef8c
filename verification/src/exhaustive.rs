//! Exhaustiveness and usefulness of `match` arms, by Maranget's algorithm.
//!
//! A `match` is exhaustive when a wildcard row is useless against its arms,
//! and an arm is dead when it is useless against the arms above it. The
//! recursion that answers "useful?" carries the value it found, and that
//! value, printed as a pattern, is the witness a non-exhaustive `match`
//! reports.

use vstd::prelude::*;

use crate::codes::{NON_EXHAUSTIVE_MATCH, UNREACHABLE_ARM};
use crate::conform::def_name;
use crate::diagnostics::{
    add_note, comma_joined, error_at, error_view, quoted, with_note, Diagnostic, DiagnosticView,
};
use crate::alias::{names_alias, Aliases};
use crate::assign::{DefKind, Definition};
use crate::infer::Span;
use crate::items::{definition_of, find_definition, is_primitive, Declarations};
use crate::syntax::{Literal, LiteralView};
use crate::text::{decimal, push_decimal, push_str, str_eq};
use crate::ty::{mentions_error, operands, DefId, KindView, Ty, TyKind, Types};

verus! {

/// How many witnesses a message names before it starts counting.
const SHOWN: usize = 3;

/// The items with every repeat dropped, the first of each kept in place.
pub open spec fn first_occurrences(items: Seq<Seq<char>>) -> Seq<Seq<char>>
    decreases items.len(),
{
    if items.len() == 0 {
        seq![]
    } else {
        let rest = first_occurrences(items.drop_last());
        if items.drop_last().contains(items.last()) {
            rest
        } else {
            rest.push(items.last())
        }
    }
}

/// The views of a list of strings.
pub open spec fn views_of(items: Seq<String>) -> Seq<Seq<char>> {
    items.map_values(|s: String| s@)
}

proof fn lemma_push_contains(s: Seq<Seq<char>>, a: Seq<char>, x: Seq<char>)
    ensures
        s.push(a).contains(x) <==> (s.contains(x) || x == a),
{
    if s.push(a).contains(x) {
        let k = choose|k: int| 0 <= k < s.len() + 1 && s.push(a)[k] == x;
        if k < s.len() {
            assert(s[k] == x);
        }
    }
    if s.contains(x) {
        let k = choose|k: int| 0 <= k < s.len() && s[k] == x;
        assert(s.push(a)[k] == x);
    }
    if x == a {
        assert(s.push(a)[s.len() as int] == x);
    }
}

proof fn lemma_first_occurrences_contains(items: Seq<Seq<char>>)
    ensures
        forall|x: Seq<char>| #[trigger] first_occurrences(items).contains(x) <==> items.contains(x),
    decreases items.len(),
{
    if items.len() > 0 {
        let init = items.drop_last();
        let last = items.last();
        lemma_first_occurrences_contains(init);
        assert(init.push(last) =~= items);
        assert forall|x: Seq<char>| #[trigger] first_occurrences(items).contains(x) <==> items.contains(
            x,
        ) by {
            lemma_push_contains(init, last, x);
            lemma_push_contains(first_occurrences(init), last, x);
        }
    }
}

/// **Each item once, in the order of its first appearance**: the result holds
/// exactly the items the input holds, and none of them twice.
pub proof fn law_first_occurrences(items: Seq<Seq<char>>)
    ensures
        forall|x: Seq<char>| #[trigger] first_occurrences(items).contains(x) <==> items.contains(x),
        first_occurrences(items).no_duplicates(),
    decreases items.len(),
{
    lemma_first_occurrences_contains(items);
    if items.len() > 0 {
        let init = items.drop_last();
        law_first_occurrences(init);
        let rest = first_occurrences(init);
        if !init.contains(items.last()) {
            assert forall|i: int, j: int|
                0 <= i < rest.len() + 1 && 0 <= j < rest.len() + 1 && i != j implies rest.push(
                items.last(),
            )[i] != rest.push(items.last())[j] by {
                if i < rest.len() && j < rest.len() {
                } else if i == rest.len() {
                    assert(rest.contains(rest[j]));
                } else {
                    assert(rest.contains(rest[i]));
                }
            }
        }
    }
}

/// Keeps the first of each, so the order stays the order the items came in.
pub fn dedup(items: Vec<String>) -> (out: Vec<String>)
    ensures
        views_of(out@) == first_occurrences(views_of(items@)),
{
    let ghost all = views_of(items@);
    let mut out: Vec<String> = Vec::new();
    let mut i: usize = 0;
    while i < items.len()
        invariant
            i <= items.len(),
            all == views_of(items@),
            views_of(out@) == first_occurrences(all.take(i as int)),
        decreases items.len() - i,
    {
        let mut seen = false;
        let mut k: usize = 0;
        while k < out.len()
            invariant
                i < items.len(),
                k <= out.len(),
                seen == exists|j: int| 0 <= j < k && out@[j]@ == items@[i as int]@,
            decreases out.len() - k,
        {
            if out[k] == items[i] {
                seen = true;
            }
            k = k + 1;
        }
        proof {
            let prefix = all.take(i as int);
            lemma_first_occurrences_contains(prefix);
            assert(all.take(i + 1).drop_last() =~= prefix);
            assert(all.take(i + 1).last() == items@[i as int]@);
            if seen {
                let j = choose|j: int| 0 <= j < out@.len() && out@[j]@ == items@[i as int]@;
                assert(views_of(out@)[j] == items@[i as int]@);
                assert(first_occurrences(prefix).contains(items@[i as int]@));
            } else {
                assert(!first_occurrences(prefix).contains(items@[i as int]@)) by {
                    if first_occurrences(prefix).contains(items@[i as int]@) {
                        let j = choose|j: int| 0 <= j < views_of(out@).len() && views_of(out@)[j] == items@[i as int]@;
                        assert(out@[j]@ == items@[i as int]@);
                    }
                }
            }
        }
        if !seen {
            let ghost before = out@;
            out.push(items[i].clone());
            proof {
                assert(views_of(out@) =~= views_of(before).push(items@[i as int]@));
            }
        }
        i = i + 1;
    }
    assert(all.take(i as int) =~= all);
    out
}

// ---------------------------------------------------------------------------
// Patterns
// ---------------------------------------------------------------------------

/// One pattern of a checked body: its shape, the type the checker gave it,
/// and where it is. Sub-patterns are indices into the same list, each below
/// the index of the pattern that holds it.
#[derive(Debug)]
pub struct Pat {
    pub kind: PatKind,
    pub ty: Ty,
    pub span: Span,
}

/// The shapes a pattern takes.
#[derive(Debug)]
pub enum PatKind {
    /// `_`.
    Wildcard,
    /// A name, which binds whatever it meets.
    Binding { local: DefId },
    Literal(Literal),
    /// `V(p, ..)`; `def` is `None` when the name did not resolve.
    Variant { def: Option<DefId>, elems: Vec<usize> },
    /// `R(f: p, ..)`, by field; a field the pattern does not name is a
    /// wildcard. `def` is `None` when the name did not resolve.
    Record { def: Option<DefId>, fields: Vec<(DefId, usize)> },
    Tuple(Vec<usize>),
    /// `()`.
    Unit,
    /// `a | b`.
    Or(Vec<usize>),
    /// A pattern already reported as wrong.
    Error,
}

/// The patterns a pattern holds, in order.
pub open spec fn sub_patterns(kind: PatKind) -> Seq<usize> {
    match kind {
        PatKind::Variant { elems, .. } => elems@,
        PatKind::Record { fields, .. } => fields@.map_values(|f: (DefId, usize)| f.1),
        PatKind::Tuple(elems) => elems@,
        PatKind::Or(alternatives) => alternatives@,
        _ => seq![],
    }
}

/// Every sub-pattern sits below the pattern that holds it, and every
/// pattern's type is in the table.
pub open spec fn patterns_wf(pats: Seq<Pat>, kinds: Seq<KindView>) -> bool {
    &&& forall|i: int, j: int|
        0 <= i < pats.len() && 0 <= j < sub_patterns(pats[i].kind).len() ==> #[trigger] sub_patterns(
            pats[i].kind,
        )[j] < i
    &&& forall|i: int| 0 <= i < pats.len() ==> (#[trigger] pats[i]).ty.0 < kinds.len()
}

/// A pattern that matches whatever it meets without looking at it: `_`, a
/// binding, or one already reported.
pub open spec fn catches_all(kind: PatKind) -> bool {
    kind is Wildcard || kind is Binding || kind is Error
}

// ---------------------------------------------------------------------------
// Constructors
// ---------------------------------------------------------------------------

/// The identity of a literal constructor: its value, whatever its suffix.
enum LitKey {
    Int(u128),
    Float(u64),
    Str(String),
    Char(char),
}

/// What a [`LitKey`] holds.
pub ghost enum LitKeyView {
    Int(u128),
    Float(u64),
    Str(Seq<char>),
    Char(char),
}

spec fn lit_key_view(k: LitKey) -> LitKeyView {
        match k {
            LitKey::Int(v) => LitKeyView::Int(v),
            LitKey::Float(b) => LitKeyView::Float(b),
            LitKey::Str(s) => LitKeyView::Str(s@),
            LitKey::Char(c) => LitKeyView::Char(c),
        }
}

/// The identity of a literal: two literals are one constructor exactly when
/// they denote one value.
pub open spec fn key_of(l: LiteralView) -> LitKeyView {
    match l {
        LiteralView::Int { value, .. } => LitKeyView::Int(value),
        LiteralView::Float { bits, .. } => LitKeyView::Float(bits),
        LiteralView::Str(s) => LitKeyView::Str(s),
        LiteralView::Char(c) => LitKeyView::Char(c),
        _ => LitKeyView::Int(0),
    }
}

/// A head constructor.
enum Ctor {
    /// `null`.
    Null,
    /// The other half of a `T?`, which has no spelling.
    Present,
    Bool(bool),
    /// A literal of a type whose values never run out, so it never completes
    /// a set; it tells two arms naming one value apart.
    Lit(LitKey),
    Variant(DefId),
    Record(DefId),
    Tuple(usize),
    Unit,
}

/// What a [`Ctor`] holds.
pub ghost enum CtorView {
    Null,
    Present,
    Bool(bool),
    Lit(LitKeyView),
    Variant(DefId),
    Record(DefId),
    Tuple(usize),
    Unit,
}

spec fn ctor_view(c: Ctor) -> CtorView {
    match c {
        Ctor::Null => CtorView::Null,
        Ctor::Present => CtorView::Present,
        Ctor::Bool(b) => CtorView::Bool(b),
        Ctor::Lit(k) => CtorView::Lit(lit_key_view(k)),
        Ctor::Variant(d) => CtorView::Variant(d),
        Ctor::Record(d) => CtorView::Record(d),
        Ctor::Tuple(w) => CtorView::Tuple(w),
        Ctor::Unit => CtorView::Unit,
    }
}

fn lit_key(l: &Literal) -> (k: LitKey)
    ensures
        lit_key_view(k) == key_of(l@),
{
    match l {
        Literal::Int { value, .. } => LitKey::Int(*value),
        Literal::Float { bits, .. } => LitKey::Float(*bits),
        Literal::Str(s) => LitKey::Str(s.clone()),
        Literal::Char(c) => LitKey::Char(*c),
        _ => LitKey::Int(0),
    }
}

fn copy_ctor(c: &Ctor) -> (out: Ctor)
    ensures
        ctor_view(out) == ctor_view(*c),
{
    match c {
        Ctor::Null => Ctor::Null,
        Ctor::Present => Ctor::Present,
        Ctor::Bool(b) => Ctor::Bool(*b),
        Ctor::Lit(LitKey::Int(v)) => Ctor::Lit(LitKey::Int(*v)),
        Ctor::Lit(LitKey::Float(b)) => Ctor::Lit(LitKey::Float(*b)),
        Ctor::Lit(LitKey::Str(s)) => Ctor::Lit(LitKey::Str(s.clone())),
        Ctor::Lit(LitKey::Char(ch)) => Ctor::Lit(LitKey::Char(*ch)),
        Ctor::Variant(d) => Ctor::Variant(*d),
        Ctor::Record(d) => Ctor::Record(*d),
        Ctor::Tuple(w) => Ctor::Tuple(*w),
        Ctor::Unit => Ctor::Unit,
    }
}

fn ctor_eq(a: &Ctor, b: &Ctor) -> (r: bool)
    ensures
        r == (ctor_view(*a) == ctor_view(*b)),
{
    match (a, b) {
        (Ctor::Null, Ctor::Null) => true,
        (Ctor::Present, Ctor::Present) => true,
        (Ctor::Bool(x), Ctor::Bool(y)) => *x == *y,
        (Ctor::Lit(LitKey::Int(x)), Ctor::Lit(LitKey::Int(y))) => *x == *y,
        (Ctor::Lit(LitKey::Float(x)), Ctor::Lit(LitKey::Float(y))) => *x == *y,
        (Ctor::Lit(LitKey::Str(x)), Ctor::Lit(LitKey::Str(y))) => str_eq(x.as_str(), y.as_str()),
        (Ctor::Lit(LitKey::Char(x)), Ctor::Lit(LitKey::Char(y))) => *x == *y,
        (Ctor::Variant(x), Ctor::Variant(y)) => *x == *y,
        (Ctor::Record(x), Ctor::Record(y)) => *x == *y,
        (Ctor::Tuple(x), Ctor::Tuple(y)) => *x == *y,
        (Ctor::Unit, Ctor::Unit) => true,
        _ => false,
    }
}

/// How many fields a constructor has.
pub open spec fn arity_of(decls: Declarations, c: CtorView) -> int {
    match c {
        CtorView::Present => 1,
        CtorView::Tuple(width) => width as int,
        CtorView::Variant(d) => if decls.variants().dom().contains(d) {
            decls.variants()[d].payload@.len() as int
        } else {
            0
        },
        CtorView::Record(d) => if decls.records().dom().contains(d) {
            decls.records()[d].fields@.len() as int
        } else {
            0
        },
        _ => 0,
    }
}

// ---------------------------------------------------------------------------
// The types a column matches on
// ---------------------------------------------------------------------------

/// The type at `t` with every outer borrow taken off.
pub open spec fn peeled(kinds: Seq<KindView>, t: int) -> int
    decreases t,
{
    if 0 <= t < kinds.len() {
        match kinds[t] {
            KindView::Borrowed { inner, .. } => if inner.0 < t {
                peeled(kinds, inner.0 as int)
            } else {
                t
            },
            _ => t,
        }
    } else {
        t
    }
}

/// Whether the type at `t` mentions an alias of the table, at any depth.
pub open spec fn mentions_alias(kinds: Seq<KindView>, aliases: Map<DefId, Ty>, t: int) -> bool {
    exists|d: DefId| #[trigger] names_alias(kinds, t, d) && aliases.dom().contains(d)
}

/// The type a column of type `t` matches on: `t` without its borrows. A type
/// that mentions an alias has no answer here, since expanding one is not this
/// module's to do.
pub open spec fn classified(kinds: Seq<KindView>, aliases: Map<DefId, Ty>, t: int) -> Option<int> {
    if mentions_alias(kinds, aliases, t) {
        None
    } else {
        Some(peeled(kinds, t))
    }
}

/// Taking borrows off a type neither brings in the error type nor an alias.
proof fn lemma_peeled_is_no_worse(kinds: Seq<KindView>, aliases: Map<DefId, Ty>, t: int)
    requires
        0 <= t < kinds.len(),
        !mentions_error(kinds, t),
        !mentions_alias(kinds, aliases, t),
    ensures
        !mentions_error(kinds, peeled(kinds, t)),
        !mentions_alias(kinds, aliases, peeled(kinds, t)),
    decreases t,
{
    if let KindView::Borrowed { inner, .. } = kinds[t] {
        if inner.0 < t {
            let i = inner.0 as int;
            assert(operands(kinds[t])[0] == inner);
            assert(!mentions_error(kinds, i)) by {
                reveal_with_fuel(crate::ty::any_mentions_error, 2);
            }
            assert forall|d: DefId| #[trigger] names_alias(kinds, i, d) implies names_alias(kinds, t, d) by {
                assert(operands(kinds[t])[0].0 < t);
            }
            lemma_peeled_is_no_worse(kinds, aliases, i);
        }
    }
}

/// `T`, classified, when the column is a `T?`.
pub open spec fn nullable_inner(kinds: Seq<KindView>, aliases: Map<DefId, Ty>, column: int) -> Option<int> {
    if 0 <= column < kinds.len() {
        match kinds[column] {
            KindView::Nullable(inner) => classified(kinds, aliases, inner.0 as int),
            _ => None,
        }
    } else {
        None
    }
}

/// What a cell's head is at a column.
pub ghost enum HeadView {
    Wild,
    Ctor(CtorView),
    /// `a | b`, by the pattern that holds the alternatives.
    Or(int),
}

/// The head of pattern `id` at a column of type `column`. A pattern under a
/// `T?` that is not `null` is the present constructor, whatever it is.
pub open spec fn head_of(
    pats: Seq<Pat>,
    kinds: Seq<KindView>,
    aliases: Map<DefId, Ty>,
    id: int,
    column: int,
) -> HeadView {
    let kind = pats[id].kind;
    if catches_all(kind) {
        HeadView::Wild
    } else if kind is Or {
        HeadView::Or(id)
    } else if kind matches PatKind::Literal(l) && l@ is Null {
        HeadView::Ctor(CtorView::Null)
    } else if nullable_inner(kinds, aliases, column) is Some {
        HeadView::Ctor(CtorView::Present)
    } else {
        match kind {
            PatKind::Literal(l) => match l@ {
                LiteralView::Bool(b) => HeadView::Ctor(CtorView::Bool(b)),
                lv => HeadView::Ctor(CtorView::Lit(key_of(lv))),
            },
            PatKind::Variant { def: Some(d), .. } => HeadView::Ctor(CtorView::Variant(d)),
            PatKind::Record { def: Some(d), .. } => HeadView::Ctor(CtorView::Record(d)),
            PatKind::Tuple(elems) => HeadView::Ctor(CtorView::Tuple(elems@.len() as usize)),
            PatKind::Unit => HeadView::Ctor(CtorView::Unit),
            _ => HeadView::Wild,
        }
    }
}

/// Whether a row headed `h` matches whatever a cell headed `q` matches, when
/// neither head has anything under it: `h` catches everything, or names the
/// same constructor.
pub open spec fn covers(h: HeadView, q: HeadView) -> bool {
    h is Wild || h == q
}

/// The constructors of a column's type, when there are finitely many: a
/// choice's variants in declaration order, a record's one, a tuple's one,
/// `true` and `false`, none for `Never`, and `null` and present for a `T?`.
pub open spec fn ctor_set(
    kinds: Seq<KindView>,
    aliases: Map<DefId, Ty>,
    defs: Seq<Definition>,
    decls: Declarations,
    column: int,
) -> Option<Seq<CtorView>> {
    if nullable_inner(kinds, aliases, column) is Some {
        Some(seq![CtorView::Null, CtorView::Present])
    } else if 0 <= column < kinds.len() {
        match kinds[column] {
            KindView::Unit => Some(seq![CtorView::Unit]),
            KindView::Tuple(tys) => Some(seq![CtorView::Tuple(tys.len() as usize)]),
            KindView::Named { def, .. } => if is_primitive(
                decls.prelude_names(),
                kinds,
                Ty(column as usize),
                "Bool"@,
            ) {
                Some(seq![CtorView::Bool(true), CtorView::Bool(false)])
            } else if is_primitive(decls.prelude_names(), kinds, Ty(column as usize), "Never"@) {
                Some(seq![])
            } else {
                match definition_of(defs, def) {
                    Some(d) => if d.kind == DefKind::Choice {
                        Some(decls.variants_of_spec(def).map_values(|v: DefId| CtorView::Variant(v)))
                    } else if d.kind == DefKind::Record {
                        Some(seq![CtorView::Record(def)])
                    } else {
                        None
                    },
                    None => None,
                }
            },
            _ => None,
        }
    } else {
        None
    }
}

/// One cell of a row: a pattern, or the wildcard a query row is made of.
#[derive(Clone, Copy, PartialEq, Eq, Structural)]
enum Entry {
    Wild,
    Pat(usize),
}

/// What a cell's head is, once the column's type is known.
enum Head {
    Wild,
    Ctor(Ctor),
    /// `a | b`, by the pattern holding the alternatives: two rows, not one
    /// head.
    Or(usize),
}

spec fn ctor_views(cs: Seq<Ctor>) -> Seq<CtorView> {
    cs.map_values(|x: Ctor| ctor_view(x))
}

spec fn head_view(h: Head) -> HeadView {
    match h {
        Head::Wild => HeadView::Wild,
        Head::Ctor(c) => HeadView::Ctor(ctor_view(c)),
        Head::Or(id) => HeadView::Or(id as int),
    }
}

spec fn entry_ok(pats: Seq<Pat>, e: Entry) -> bool {
    match e {
        Entry::Wild => true,
        Entry::Pat(id) => id < pats.len(),
    }
}

spec fn row_ok(pats: Seq<Pat>, row: Seq<Entry>) -> bool {
    forall|i: int| 0 <= i < row.len() ==> entry_ok(pats, #[trigger] row[i])
}

/// A cell that matches whatever it meets.
spec fn entry_wild(pats: Seq<Pat>, e: Entry) -> bool {
    match e {
        Entry::Wild => true,
        Entry::Pat(id) => id < pats.len() && catches_all(pats[id as int].kind),
    }
}

/// A row every cell of which matches whatever it meets.
spec fn all_wild(pats: Seq<Pat>, row: Seq<Entry>) -> bool {
    forall|i: int| 0 <= i < row.len() ==> entry_wild(pats, #[trigger] row[i])
}

/// A row of query wildcards only.
spec fn only_wild(row: Seq<Entry>) -> bool {
    forall|i: int| 0 <= i < row.len() ==> #[trigger] row[i] == Entry::Wild
}

/// The pattern id of a cell, or zero for the query wildcard: what the
/// recursion over alternatives decreases.
spec fn entry_rank(e: Entry) -> int {
    match e {
        Entry::Wild => 0,
        Entry::Pat(id) => id as int,
    }
}

/// Per `match`, the recursion budget: a `match` whose analysis exceeds it is
/// accepted unchecked, which is the direction that claims nothing false.
pub const BUDGET: u32 = 100_000;

/// The analysis of one body's matches.
struct Checker<'a> {
    pats: &'a [Pat],
    defs: &'a [Definition],
    decls: &'a Declarations,
    types: &'a Types,
    aliases: &'a Aliases,
    /// The budget spent on the current `match`.
    spent: u32,
}

impl<'a> Checker<'a> {
    spec fn wf(&self) -> bool {
        &&& self.types.wf()
        &&& self.decls.wf()
        &&& self.aliases.wf()
        &&& patterns_wf(self.pats@, self.types@)
    }

    spec fn same_tables(&self, other: &Checker<'a>) -> bool {
        &&& self.pats == other.pats
        &&& self.defs == other.defs
        &&& self.decls == other.decls
        &&& self.types == other.types
        &&& self.aliases == other.aliases
    }

    spec fn head_spec(&self, e: Entry, column: Ty) -> HeadView {
        match e {
            Entry::Wild => HeadView::Wild,
            Entry::Pat(id) => head_of(self.pats@, self.types@, self.aliases@, id as int, column.0 as int),
        }
    }

    spec fn ctor_set_spec(&self, column: Ty) -> Option<Seq<CtorView>> {
        ctor_set(self.types@, self.aliases@, self.defs@, *self.decls, column.0 as int)
    }

    spec fn inner_spec(&self, column: Ty) -> Option<int> {
        nullable_inner(self.types@, self.aliases@, column.0 as int)
    }

    /// The type a column of type `ty` matches on. `None` when an alias would
    /// have to be expanded to say.
    fn classify(&self, ty: Ty) -> (r: Option<Ty>)
        requires
            self.wf(),
            self.types.valid(ty),
        ensures
            match r {
                Some(t) => classified(self.types@, self.aliases@, ty.0 as int) == Some(t.0 as int)
                    && self.types.valid(t),
                None => classified(self.types@, self.aliases@, ty.0 as int) is None,
            },
    {
        if self.aliases.mentions_any(self.types, ty) {
            return None;
        }
        Some(peel(self.types, ty))
    }

    /// `T`, classified, when the column is a `T?`.
    fn inner_of(&self, column: Ty) -> (r: Option<Ty>)
        requires
            self.wf(),
            self.types.valid(column),
        ensures
            match r {
                Some(t) => self.inner_spec(column) == Some(t.0 as int) && self.types.valid(t),
                None => self.inner_spec(column) is None,
            },
    {
        match self.types.kind(column) {
            TyKind::Nullable(inner) => {
                proof {
                    assert(operands(self.types@[column.0 as int])[0] == *inner);
                }
                self.classify(*inner)
            },
            _ => None,
        }
    }

    /// What a cell's head is at a column of this type.
    fn head(&self, e: Entry, column: Ty) -> (h: Head)
        requires
            self.wf(),
            self.types.valid(column),
            entry_ok(self.pats@, e),
        ensures
            head_view(h) == self.head_spec(e, column),
    {
        let id = match e {
            Entry::Wild => {
                return Head::Wild;
            },
            Entry::Pat(id) => id,
        };
        let kind = &self.pats[id].kind;
        match kind {
            PatKind::Wildcard | PatKind::Binding { .. } | PatKind::Error => {
                return Head::Wild;
            },
            PatKind::Or(_) => {
                return Head::Or(id);
            },
            PatKind::Literal(Literal::Null) => {
                return Head::Ctor(Ctor::Null);
            },
            _ => {},
        }
        if self.inner_of(column).is_some() {
            return Head::Ctor(Ctor::Present);
        }
        match kind {
            PatKind::Literal(Literal::Bool(b)) => Head::Ctor(Ctor::Bool(*b)),
            PatKind::Literal(l) => Head::Ctor(Ctor::Lit(lit_key(l))),
            PatKind::Variant { def: Some(d), .. } => Head::Ctor(Ctor::Variant(*d)),
            PatKind::Record { def: Some(d), .. } => Head::Ctor(Ctor::Record(*d)),
            PatKind::Tuple(elems) => Head::Ctor(Ctor::Tuple(elems.len())),
            PatKind::Unit => Head::Ctor(Ctor::Unit),
            _ => Head::Wild,
        }
    }

    /// The constructors of a column's type, when there are finitely many.
    fn ctor_set(&self, column: Ty) -> (r: Option<Vec<Ctor>>)
        requires
            self.wf(),
            self.types.valid(column),
        ensures
            match r {
                Some(cs) => self.ctor_set_spec(column) == Some(cs@.map_values(|x: Ctor| ctor_view(x))),
                None => self.ctor_set_spec(column) is None,
            },
    {
        if self.inner_of(column).is_some() {
            let cs = vec![Ctor::Null, Ctor::Present];
            assert(cs@.map_values(|x: Ctor| ctor_view(x)) =~= seq![CtorView::Null, CtorView::Present]);
            return Some(cs);
        }
        match self.types.kind(column) {
            TyKind::Unit => {
                let cs = vec![Ctor::Unit];
                assert(cs@.map_values(|x: Ctor| ctor_view(x)) =~= seq![CtorView::Unit]);
                Some(cs)
            },
            TyKind::Tuple(tys) => {
                let cs = vec![Ctor::Tuple(tys.len())];
                assert(cs@.map_values(|x: Ctor| ctor_view(x)) =~= seq![CtorView::Tuple(tys@.len() as usize)]);
                Some(cs)
            },
            TyKind::Named { def, .. } => self.named_set(*def, column),
            _ => None,
        }
    }

    fn named_set(&self, def: DefId, column: Ty) -> (r: Option<Vec<Ctor>>)
        requires
            self.wf(),
            self.types.valid(column),
            self.inner_spec(column) is None,
            self.types@[column.0 as int] matches KindView::Named { def: d, .. } && d == def,
        ensures
            match r {
                Some(cs) => self.ctor_set_spec(column) == Some(cs@.map_values(|x: Ctor| ctor_view(x))),
                None => self.ctor_set_spec(column) is None,
            },
    {
        let prelude = self.decls.prelude();
        if prelude.is_bool(self.types, column) {
            let cs = vec![Ctor::Bool(true), Ctor::Bool(false)];
            assert(cs@.map_values(|x: Ctor| ctor_view(x)) =~= seq![CtorView::Bool(true), CtorView::Bool(false)]);
            return Some(cs);
        }
        if prelude.is_never(self.types, column) {
            let cs: Vec<Ctor> = Vec::new();
            assert(cs@.map_values(|x: Ctor| ctor_view(x)) =~= Seq::<CtorView>::empty());
            return Some(cs);
        }
        match find_definition(self.defs, def) {
            Some(d) => {
                if d.kind == DefKind::Choice {
                    let variants = self.decls.variants_of(def);
                    let mut cs: Vec<Ctor> = Vec::new();
                    let mut i: usize = 0;
                    while i < variants.len()
                        invariant
                            i <= variants@.len(),
                            cs@.len() == i,
                            cs@.map_values(|x: Ctor| ctor_view(x)) == variants@.take(i as int).map_values(
                                |v: DefId| CtorView::Variant(v),
                            ),
                        decreases variants@.len() - i,
                    {
                        let ghost before = cs@;
                        cs.push(Ctor::Variant(variants[i]));
                        proof {
                            assert(cs@ == before.push(Ctor::Variant(variants@[i as int])));
                            assert(ctor_view(cs@[i as int]) == CtorView::Variant(variants@[i as int]));
                            assert forall|k: int| 0 <= k < i implies ctor_view(cs@[k]) == CtorView::Variant(
                                variants@[k],
                            ) by {
                                assert(before.map_values(|x: Ctor| ctor_view(x))[k] == variants@.take(i as int).map_values(
                                    |v: DefId| CtorView::Variant(v),
                                )[k]);
                            }
                        }
                        assert(cs@.map_values(|x: Ctor| ctor_view(x)) =~= variants@.take(i + 1).map_values(
                            |v: DefId| CtorView::Variant(v),
                        ));
                        i = i + 1;
                    }
                    assert(variants@.take(i as int) =~= variants@);
                    Some(cs)
                } else if d.kind == DefKind::Record {
                    let cs = vec![Ctor::Record(def)];
                    assert(cs@.map_values(|x: Ctor| ctor_view(x)) =~= seq![CtorView::Record(def)]);
                    Some(cs)
                } else {
                    None
                }
            },
            None => None,
        }
    }

    /// How many fields a constructor has.
    fn arity(&self, ctor: &Ctor) -> (n: usize)
        requires
            self.wf(),
        ensures
            n == arity_of(*self.decls, ctor_view(*ctor)),
    {
        match ctor {
            Ctor::Present => 1,
            Ctor::Tuple(width) => *width,
            Ctor::Variant(def) => match self.decls.variant(*def) {
                Some(variant) => variant.payload.len(),
                None => 0,
            },
            Ctor::Record(def) => match self.decls.record(*def) {
                Some(record) => record.fields.len(),
                None => 0,
            },
            _ => 0,
        }
    }
}

/// The type without its outer borrows.
fn peel(types: &Types, ty: Ty) -> (r: Ty)
    requires
        types.wf(),
        types.valid(ty),
    ensures
        r.0 == peeled(types@, ty.0 as int),
        types.valid(r),
    decreases ty.0,
{
    match types.kind(ty) {
        TyKind::Borrowed { inner, .. } => {
            proof {
                assert(operands(types@[ty.0 as int])[0] == *inner);
            }
            peel(types, *inner)
        },
        _ => ty,
    }
}

// ---------------------------------------------------------------------------
// Rows
// ---------------------------------------------------------------------------

/// Every sub-pattern of pattern `id` matches whatever it meets.
pub open spec fn subs_catch_all(pats: Seq<Pat>, id: int) -> bool {
    forall|j: int|
        0 <= j < sub_patterns(pats[id].kind).len() ==> catches_all(
            pats[#[trigger] sub_patterns(pats[id].kind)[j] as int].kind,
        )
}

/// Some row of the matrix matches whatever it meets.
spec fn has_wild_row(pats: Seq<Pat>, matrix: Seq<Vec<Entry>>) -> bool {
    exists|i: int| 0 <= i < matrix.len() && #[trigger] all_wild(pats, matrix[i]@)
}

/// Every row of the matrix has `width` cells, each one a pattern of the
/// list or a wildcard.
spec fn matrix_ok(pats: Seq<Pat>, matrix: Seq<Vec<Entry>>, width: int) -> bool {
    forall|i: int|
        0 <= i < matrix.len() ==> (#[trigger] matrix[i])@.len() == width && row_ok(pats, matrix[i]@)
}

/// `n` query wildcards.
spec fn wilds(n: int) -> Seq<Entry> {
    Seq::new(n as nat, |_i: int| Entry::Wild)
}

/// A row of query wildcards of the given length.
fn wild_row(n: usize) -> (row: Vec<Entry>)
    ensures
        row@ == wilds(n as int),
{
    let mut row: Vec<Entry> = Vec::new();
    let mut k: usize = 0;
    while k < n
        invariant
            k <= n,
            row@ == wilds(k as int),
        decreases n - k,
    {
        row.push(Entry::Wild);
        assert(row@ =~= wilds(k + 1));
        k = k + 1;
    }
    row
}

/// `row[from..]` appended to `out`.
fn push_tail(out: &mut Vec<Entry>, row: &Vec<Entry>, from: usize)
    requires
        from <= row@.len(),
    ensures
        final(out)@ == old(out)@ + row@.subrange(from as int, row@.len() as int),
{
    let mut k = from;
    while k < row.len()
        invariant
            from <= k <= row@.len(),
            out@ == old(out)@ + row@.subrange(from as int, k as int),
        decreases row@.len() - k,
    {
        out.push(row[k]);
        assert(row@.subrange(from as int, k + 1) =~= row@.subrange(from as int, k as int).push(row@[k as int]));
        k = k + 1;
    }
}

/// `tys[from..]` appended to `out`.
fn push_tys(out: &mut Vec<Ty>, tys: &Vec<Ty>, from: usize)
    requires
        from <= tys@.len(),
    ensures
        final(out)@ == old(out)@ + tys@.subrange(from as int, tys@.len() as int),
{
    let mut k = from;
    while k < tys.len()
        invariant
            from <= k <= tys@.len(),
            out@ == old(out)@ + tys@.subrange(from as int, k as int),
        decreases tys@.len() - k,
    {
        out.push(tys[k]);
        assert(tys@.subrange(from as int, k + 1) =~= tys@.subrange(from as int, k as int).push(tys@[k as int]));
        k = k + 1;
    }
}

/// `row` with its first cell replaced.
fn with_head(row: &Vec<Entry>, head: Entry) -> (out: Vec<Entry>)
    requires
        row@.len() >= 1,
    ensures
        out@ == row@.update(0, head),
{
    let mut out: Vec<Entry> = Vec::new();
    out.push(head);
    push_tail(&mut out, row, 1);
    assert(out@ =~= row@.update(0, head));
    out
}

/// `cells`, cut or padded with wildcards to `n`.
fn fit(cells: Vec<Entry>, n: usize) -> (out: Vec<Entry>)
    ensures
        out@.len() == n,
        forall|i: int| 0 <= i < n ==> #[trigger] out@[i] == (if i < cells@.len() {
            cells@[i]
        } else {
            Entry::Wild
        }),
{
    let mut out: Vec<Entry> = Vec::new();
    let mut k: usize = 0;
    while k < n
        invariant
            k <= n,
            out@.len() == k,
            forall|i: int| 0 <= i < k ==> #[trigger] out@[i] == (if i < cells@.len() {
                cells@[i]
            } else {
                Entry::Wild
            }),
        decreases n - k,
    {
        if k < cells.len() {
            out.push(cells[k]);
        } else {
            out.push(Entry::Wild);
        }
        k = k + 1;
    }
    out
}

/// Whether the list holds a constructor.
fn contains_ctor(cs: &Vec<Ctor>, c: &Ctor) -> (r: bool)
    ensures
        r == ctor_views(cs@).contains(ctor_view(*c)),
{
    let ghost views = ctor_views(cs@);
    let mut k: usize = 0;
    while k < cs.len()
        invariant
            k <= cs@.len(),
            views == ctor_views(cs@),
            forall|j: int| 0 <= j < k ==> views[j] != ctor_view(*c),
        decreases cs@.len() - k,
    {
        if ctor_eq(&cs[k], c) {
            assert(views[k as int] == ctor_view(*c));
            return true;
        }
        k = k + 1;
    }
    false
}

/// The types of the sub-patterns of pattern `id` when it names `c` at a
/// column of type `column`: for `a | b`, those of the first alternative that
/// names it; for a variant or tuple pattern whose head is `c`, its elements'
/// types; otherwise none.
spec fn cell_sub_tys(
    pats: Seq<Pat>,
    kinds: Seq<KindView>,
    aliases: Map<DefId, Ty>,
    id: int,
    c: CtorView,
    column: int,
) -> Option<Seq<Ty>>
    decreases id + 1, 0int,
{
    if id < 0 || id >= pats.len() {
        None
    } else {
        match pats[id].kind {
            PatKind::Or(alternatives) => alternatives_sub_tys(pats, kinds, aliases, alternatives@, 0, id, c, column),
            PatKind::Variant { elems, .. } => if head_of(pats, kinds, aliases, id, column) == HeadView::Ctor(c) {
                Some(elems@.map_values(|p: usize| pats[p as int].ty))
            } else {
                None
            },
            PatKind::Tuple(elems) => if head_of(pats, kinds, aliases, id, column) == HeadView::Ctor(c) {
                Some(elems@.map_values(|p: usize| pats[p as int].ty))
            } else {
                None
            },
            _ => None,
        }
    }
}

/// [`cell_sub_tys`] of the first of `alternatives[k..]`, each below `bound`,
/// that has an answer.
spec fn alternatives_sub_tys(
    pats: Seq<Pat>,
    kinds: Seq<KindView>,
    aliases: Map<DefId, Ty>,
    alternatives: Seq<usize>,
    k: int,
    bound: int,
    c: CtorView,
    column: int,
) -> Option<Seq<Ty>>
    decreases bound, alternatives.len() - k,
{
    if k < 0 || k >= alternatives.len() {
        None
    } else if alternatives[k] < bound && cell_sub_tys(pats, kinds, aliases, alternatives[k] as int, c, column) is Some {
        cell_sub_tys(pats, kinds, aliases, alternatives[k] as int, c, column)
    } else {
        alternatives_sub_tys(pats, kinds, aliases, alternatives, k + 1, bound, c, column)
    }
}

impl<'a> Checker<'a> {
    /// The types of one cell's sub-patterns, when that cell names `ctor`.
    fn sub_tys(&self, e: Entry, ctor: &Ctor, column: Ty) -> (r: Option<Vec<Ty>>)
        requires
            self.wf(),
            self.types.valid(column),
            entry_ok(self.pats@, e),
        ensures
            r matches Some(tys) ==> forall|k: int| 0 <= k < tys@.len() ==> self.types.valid(#[trigger] tys@[k]),
            match e {
                Entry::Wild => r is None,
                Entry::Pat(id) => match cell_sub_tys(
                    self.pats@,
                    self.types@,
                    self.aliases@,
                    id as int,
                    ctor_view(*ctor),
                    column.0 as int,
                ) {
                    Some(t) => r matches Some(tys) && tys@ == t,
                    None => r is None,
                },
            },
        decreases entry_rank(e),
    {
        let id = match e {
            Entry::Wild => {
                return None;
            },
            Entry::Pat(id) => id,
        };
        let pats = self.pats;
        if let PatKind::Or(alternatives) = &pats[id].kind {
            let mut k: usize = 0;
            while k < alternatives.len()
                invariant
                    self.wf(),
                    self.types.valid(column),
                    e == Entry::Pat(id),
                    id < pats@.len(),
                    pats == self.pats,
                    pats@[id as int].kind == PatKind::Or(*alternatives),
                    k <= alternatives@.len(),
                    alternatives_sub_tys(pats@, self.types@, self.aliases@, alternatives@, 0, id as int, ctor_view(*ctor), column.0 as int)
                        == alternatives_sub_tys(pats@, self.types@, self.aliases@, alternatives@, k as int, id as int, ctor_view(*ctor), column.0 as int),
                decreases alternatives@.len() - k,
            {
                proof {
                    assert(sub_patterns(pats@[id as int].kind)[k as int] == alternatives@[k as int]);
                    assert(alternatives@[k as int] < id);
                }
                if let Some(tys) = self.sub_tys(Entry::Pat(alternatives[k]), ctor, column) {
                    return Some(tys);
                }
                k = k + 1;
            }
            return None;
        }
        match self.head(e, column) {
            Head::Ctor(found) => {
                if !ctor_eq(&found, ctor) {
                    return None;
                }
            },
            _ => {
                return None;
            },
        }
        match &pats[id].kind {
            PatKind::Variant { elems, .. } | PatKind::Tuple(elems) => {
                let mut tys: Vec<Ty> = Vec::new();
                let mut k: usize = 0;
                while k < elems.len()
                    invariant
                        self.wf(),
                        id < pats@.len(),
                        pats == self.pats,
                        sub_patterns(pats@[id as int].kind) == elems@,
                        k <= elems@.len(),
                        forall|j: int| 0 <= j < tys@.len() ==> self.types.valid(#[trigger] tys@[j]),
                        tys@ == elems@.take(k as int).map_values(|p: usize| pats@[p as int].ty),
                    decreases elems@.len() - k,
                {
                    let sub = elems[k];
                    proof {
                        assert(sub_patterns(pats@[id as int].kind)[k as int] == sub);
                        assert(pats@[sub as int] == pats@[sub as int]);
                    }
                    tys.push(pats[sub].ty);
                    proof {
                        assert(elems@.take(k + 1) =~= elems@.take(k as int).push(sub));
                        assert(tys@ =~= elems@.take(k + 1).map_values(|p: usize| pats@[p as int].ty));
                    }
                    k = k + 1;
                }
                proof {
                    assert(elems@.take(elems@.len() as int) =~= elems@);
                }
                Some(tys)
            },
            _ => None,
        }
    }

    /// The column types a constructor's fields sit at: read off a pattern
    /// that names the constructor, or, for a record, off its declaration,
    /// since a record pattern may leave fields out.
    fn field_tys(&self, ctor: &Ctor, column: Ty, matrix: &Vec<Vec<Entry>>, query: &Vec<Entry>) -> (tys: Vec<Ty>)
        requires
            self.wf(),
            self.types.valid(column),
            query@.len() >= 1,
            row_ok(self.pats@, query@),
            forall|i: int|
                0 <= i < matrix@.len() ==> (#[trigger] matrix@[i])@.len() >= 1 && row_ok(self.pats@, matrix@[i]@),
            ctor_view(*ctor) is Present ==> self.inner_spec(column) is Some,
        ensures
            tys@.len() == arity_of(*self.decls, ctor_view(*ctor)),
    {
        match ctor {
            Ctor::Null | Ctor::Unit | Ctor::Bool(_) | Ctor::Lit(_) => Vec::new(),
            Ctor::Present => {
                let mut tys: Vec<Ty> = Vec::new();
                if let Some(inner) = self.inner_of(column) {
                    tys.push(inner);
                }
                tys
            },
            Ctor::Record(def) => {
                let mut tys: Vec<Ty> = Vec::new();
                if let Some(record) = self.decls.record(*def) {
                    let mut k: usize = 0;
                    while k < record.fields.len()
                        invariant
                            k <= record.fields@.len(),
                            tys@.len() == k,
                        decreases record.fields@.len() - k,
                    {
                        tys.push(record.fields[k].1);
                        k = k + 1;
                    }
                }
                tys
            },
            Ctor::Variant(_) | Ctor::Tuple(_) => {
                let arity = self.arity(ctor);
                let mut i: usize = 0;
                while i < matrix.len()
                    invariant
                        self.wf(),
                        self.types.valid(column),
                        arity == arity_of(*self.decls, ctor_view(*ctor)),
                        i <= matrix@.len(),
                        forall|j: int|
                            0 <= j < matrix@.len() ==> (#[trigger] matrix@[j])@.len() >= 1 && row_ok(
                                self.pats@,
                                matrix@[j]@,
                            ),
                    decreases matrix@.len() - i,
                {
                    proof {
                        assert(entry_ok(self.pats@, matrix@[i as int]@[0]));
                    }
                    if let Some(found) = self.sub_tys(matrix[i][0], ctor, column) {
                        if found.len() == arity {
                            return self.classify_all(&found);
                        }
                    }
                    i = i + 1;
                }
                proof {
                    assert(entry_ok(self.pats@, query@[0]));
                }
                if let Some(found) = self.sub_tys(query[0], ctor, column) {
                    if found.len() == arity {
                        return self.classify_all(&found);
                    }
                }
                let mut tys: Vec<Ty> = Vec::new();
                let mut k: usize = 0;
                while k < arity
                    invariant
                        k <= arity,
                        tys@.len() == k,
                    decreases arity - k,
                {
                    tys.push(Ty::error());
                    k = k + 1;
                }
                tys
            },
        }
    }

    /// Each type classified, or kept as it is where classifying has no answer.
    fn classify_all(&self, found: &Vec<Ty>) -> (tys: Vec<Ty>)
        requires
            self.wf(),
            forall|j: int| 0 <= j < found@.len() ==> self.types.valid(#[trigger] found@[j]),
        ensures
            tys@.len() == found@.len(),
    {
        let mut tys: Vec<Ty> = Vec::new();
        let mut k: usize = 0;
        while k < found.len()
            invariant
                self.wf(),
                k <= found@.len(),
                tys@.len() == k,
                forall|j: int| 0 <= j < found@.len() ==> self.types.valid(#[trigger] found@[j]),
            decreases found@.len() - k,
        {
            let t = found[k];
            match self.classify(t) {
                Some(c) => tys.push(c),
                None => tys.push(t),
            }
            k = k + 1;
        }
        tys
    }

    /// The sub-patterns of a cell's head, once it is known to be `ctor`:
    /// exactly `arity` cells, a field no pattern names being a wildcard.
    fn sub_entries(&self, e: Entry, ctor: &Ctor, arity: usize) -> (out: Vec<Entry>)
        requires
            self.wf(),
            entry_ok(self.pats@, e),
        ensures
            out@.len() == arity,
            row_ok(self.pats@, out@),
            e is Wild ==> all_wild(self.pats@, out@),
            e matches Entry::Pat(id) && subs_catch_all(self.pats@, id as int) && ctor_view(*ctor)
                != CtorView::Present ==> all_wild(self.pats@, out@),
    {
        let id = match e {
            Entry::Wild => {
                let out = wild_row(arity);
                return out;
            },
            Entry::Pat(id) => id,
        };
        let pats = self.pats;
        if let Ctor::Present = ctor {
            let mut cells: Vec<Entry> = Vec::new();
            cells.push(Entry::Pat(id));
            return fit(cells, arity);
        }
        let mut cells: Vec<Entry> = Vec::new();
        match (&pats[id].kind, ctor) {
            (PatKind::Record { fields, def: Some(def) }, Ctor::Record(_)) => {
                if let Some(record) = self.decls.record(*def) {
                    let mut k: usize = 0;
                    while k < record.fields.len()
                        invariant
                            self.wf(),
                            id < pats@.len(),
                            pats == self.pats,
                            sub_patterns(pats@[id as int].kind) == fields@.map_values(|f: (DefId, usize)| f.1),
                            k <= record.fields@.len(),
                            row_ok(pats@, cells@),
                            subs_catch_all(pats@, id as int) ==> all_wild(pats@, cells@),
                        decreases record.fields@.len() - k,
                    {
                        let field = record.fields[k].0;
                        let mut cell = Entry::Wild;
                        let mut done = false;
                        let mut m: usize = 0;
                        while m < fields.len() && !done
                            invariant
                                self.wf(),
                                pats == self.pats,
                                id < pats@.len(),
                                sub_patterns(pats@[id as int].kind) == fields@.map_values(|f: (DefId, usize)| f.1),
                                m <= fields@.len(),
                                entry_ok(pats@, cell),
                                subs_catch_all(pats@, id as int) ==> entry_wild(pats@, cell),
                            decreases fields@.len() - m,
                        {
                            if fields[m].0 == field {
                                let sub = fields[m].1;
                                proof {
                                    assert(sub_patterns(pats@[id as int].kind)[m as int] == sub);
                                }
                                cell = Entry::Pat(sub);
                                done = true;
                            }
                            m = m + 1;
                        }
                        cells.push(cell);
                        k = k + 1;
                    }
                }
            },
            (PatKind::Variant { elems, .. }, Ctor::Variant(_)) | (PatKind::Tuple(elems), Ctor::Tuple(_)) => {
                let mut k: usize = 0;
                while k < elems.len()
                    invariant
                        self.wf(),
                        id < pats@.len(),
                        pats == self.pats,
                        sub_patterns(pats@[id as int].kind) == elems@,
                        k <= elems@.len(),
                        row_ok(pats@, cells@),
                        subs_catch_all(pats@, id as int) ==> all_wild(pats@, cells@),
                    decreases elems@.len() - k,
                {
                    proof {
                        assert(sub_patterns(pats@[id as int].kind)[k as int] == elems@[k as int]);
                    }
                    cells.push(Entry::Pat(elems[k]));
                    k = k + 1;
                }
            },
            _ => {},
        }
        fit(cells, arity)
    }
}

/// A cell naming `c` with nothing but catch-alls under it, in a row whose
/// other cells catch everything.
pub open spec fn names_with_wildcards(
    pats: Seq<Pat>,
    kinds: Seq<KindView>,
    aliases: Map<DefId, Ty>,
    id: int,
    c: CtorView,
    column: int,
) -> bool {
    &&& 0 <= id < pats.len()
    &&& head_of(pats, kinds, aliases, id, column) == HeadView::Ctor(c)
    &&& c != CtorView::Present
    &&& subs_catch_all(pats, id)
}

/// A row whose head names `c` with catch-alls under it and whose other
/// cells catch everything.
spec fn row_names(pats: Seq<Pat>, kinds: Seq<KindView>, aliases: Map<DefId, Ty>, row: Seq<Entry>, c: CtorView, column: int) -> bool {
    &&& row.len() >= 1
    &&& row[0] matches Entry::Pat(id) && names_with_wildcards(pats, kinds, aliases, id as int, c, column)
    &&& all_wild(pats, row.subrange(1, row.len() as int))
}

/// No row of the matrix has an `a | b` head at this column.
spec fn no_or_heads(c: Checker, matrix: Seq<Vec<Entry>>, column: Ty) -> bool {
    forall|i: int| 0 <= i < matrix.len() ==> !(#[trigger] c.head_spec(matrix[i]@[0], column) is Or)
}

impl<'a> Checker<'a> {
    /// One row specialised to `ctor`: its head replaced by the head's
    /// `arity` sub-patterns, or `None` when the head is another constructor.
    fn specialise_row(&self, row: &Vec<Entry>, ctor: &Ctor, column: Ty, arity: usize) -> (r: Option<Vec<Entry>>)
        requires
            self.wf(),
            self.types.valid(column),
            row@.len() >= 1,
            row_ok(self.pats@, row@),
        ensures
            r matches Some(out) ==> out@.len() == arity + row@.len() - 1 && row_ok(self.pats@, out@),
            self.head_spec(row@[0], column) is Wild ==> r is Some,
            r matches Some(out) ==> (only_wild(row@) ==> only_wild(out@)),
            r matches Some(out) ==> (all_wild(self.pats@, row@) ==> all_wild(self.pats@, out@)),
            row_names(self.pats@, self.types@, self.aliases@, row@, ctor_view(*ctor), column.0 as int) ==> (r matches Some(
                out,
            ) && all_wild(self.pats@, out@)),
            !(self.head_spec(row@[0], column) is Or) ==> (r is Some <==> covers(
                self.head_spec(row@[0], column),
                HeadView::Ctor(ctor_view(*ctor)),
            )),
    {
        let cells = match self.head(row[0], column) {
            Head::Wild => wild_row(arity),
            Head::Ctor(found) => {
                if ctor_eq(&found, ctor) {
                    self.sub_entries(row[0], ctor, arity)
                } else {
                    return None;
                }
            },
            Head::Or(_) => {
                return None;
            },
        };
        let mut out = cells;
        let ghost head_cells = out@;
        push_tail(&mut out, row, 1);
        proof {
            let tail = row@.subrange(1, row@.len() as int);
            assert(out@ == head_cells + tail);
            assert forall|i: int| 0 <= i < out@.len() implies entry_ok(self.pats@, #[trigger] out@[i]) by {
                if i >= head_cells.len() {
                    assert(out@[i] == row@[i - head_cells.len() + 1]);
                }
            }
            if only_wild(row@) {
                assert forall|i: int| 0 <= i < out@.len() implies #[trigger] out@[i] == Entry::Wild by {
                    if i >= head_cells.len() {
                        assert(out@[i] == row@[i - head_cells.len() + 1]);
                    } else {
                        assert(head_cells == wilds(arity as int));
                    }
                }
            }
            if all_wild(self.pats@, row@) {
                assert forall|i: int| 0 <= i < out@.len() implies entry_wild(self.pats@, #[trigger] out@[i]) by {
                    if i >= head_cells.len() {
                        assert(out@[i] == row@[i - head_cells.len() + 1]);
                    } else {
                        assert(head_cells == wilds(arity as int));
                        assert(head_cells[i] == Entry::Wild);
                    }
                }
            }
            if row_names(self.pats@, self.types@, self.aliases@, row@, ctor_view(*ctor), column.0 as int) {
                assert forall|i: int| 0 <= i < out@.len() implies entry_wild(self.pats@, #[trigger] out@[i]) by {
                    if i >= head_cells.len() {
                        assert(out@[i] == tail[i - head_cells.len()]);
                    }
                }
            }
        }
        Some(out)
    }

    /// One row specialised to `ctor`, an `a | b` head standing for one row
    /// per alternative.
    fn specialise_one(&self, row: &Vec<Entry>, ctor: &Ctor, column: Ty, arity: usize) -> (out: Vec<Vec<Entry>>)
        requires
            self.wf(),
            self.types.valid(column),
            row@.len() >= 1,
            row_ok(self.pats@, row@),
        ensures
            matrix_ok(self.pats@, out@, arity + row@.len() - 1),
            all_wild(self.pats@, row@) ==> has_wild_row(self.pats@, out@),
            row_names(self.pats@, self.types@, self.aliases@, row@, ctor_view(*ctor), column.0 as int) ==> has_wild_row(
                self.pats@,
                out@,
            ),
            !(self.head_spec(row@[0], column) is Or) ==> out@.len() == (if covers(
                self.head_spec(row@[0], column),
                HeadView::Ctor(ctor_view(*ctor)),
            ) {
                1int
            } else {
                0int
            }),
        decreases entry_rank(row@[0]),
    {
        let mut out: Vec<Vec<Entry>> = Vec::new();
        match self.head(row[0], column) {
            Head::Or(id) => {
                let pats = self.pats;
                if let PatKind::Or(alternatives) = &pats[id].kind {
                    let mut k: usize = 0;
                    while k < alternatives.len()
                        invariant
                            self.wf(),
                            self.types.valid(column),
                            pats == self.pats,
                            row@.len() >= 1,
                            row_ok(self.pats@, row@),
                            row@[0] == Entry::Pat(id),
                            id < pats@.len(),
                            pats@[id as int].kind == PatKind::Or(*alternatives),
                            k <= alternatives@.len(),
                            matrix_ok(self.pats@, out@, arity + row@.len() - 1),
                        decreases alternatives@.len() - k,
                    {
                        proof {
                            assert(sub_patterns(pats@[id as int].kind)[k as int] == alternatives@[k as int]);
                        }
                        let expanded = with_head(row, Entry::Pat(alternatives[k]));
                        proof {
                            assert forall|i: int| 0 <= i < expanded@.len() implies entry_ok(self.pats@, #[trigger] expanded@[i]) by {
                                if i > 0 {
                                    assert(expanded@[i] == row@[i]);
                                }
                            }
                        }
                        let mut more = self.specialise_one(&expanded, ctor, column, arity);
                        let ghost before = out@;
                        let ghost added = more@;
                        out.append(&mut more);
                        proof {
                            assert forall|i: int| 0 <= i < out@.len() implies (#[trigger] out@[i])@.len() == arity
                                + row@.len() - 1 && row_ok(self.pats@, out@[i]@) by {
                                if i >= before.len() {
                                    assert(out@[i] == added[i - before.len()]);
                                }
                            }
                        }
                        k = k + 1;
                    }
                }
            },
            _ => {
                if let Some(r) = self.specialise_row(row, ctor, column, arity) {
                    out.push(r);
                    proof {
                        assert(out@[0]@ == r@);
                    }
                }
            },
        }
        out
    }

    /// The rows of `matrix` whose head admits `ctor`, with that head
    /// replaced by its `arity` sub-patterns.
    fn specialise(&self, matrix: &Vec<Vec<Entry>>, ctor: &Ctor, column: Ty, arity: usize) -> (out: Vec<Vec<Entry>>)
        requires
            self.wf(),
            self.types.valid(column),
            exists|w: int| w >= 1 && matrix_ok(self.pats@, matrix@, w),
        ensures
            forall|w: int| w >= 1 && matrix_ok(self.pats@, matrix@, w) ==> matrix_ok(self.pats@, out@, arity + w - 1),
            has_wild_row(self.pats@, matrix@) ==> has_wild_row(self.pats@, out@),
            (exists|i: int|
                0 <= i < matrix@.len() && #[trigger] row_names(
                    self.pats@,
                    self.types@,
                    self.aliases@,
                    matrix@[i]@,
                    ctor_view(*ctor),
                    column.0 as int,
                )) ==> has_wild_row(self.pats@, out@),
            no_or_heads(*self, matrix@, column) ==> (out@.len() == 0 <==> forall|i: int|
                0 <= i < matrix@.len() ==> !covers(
                    #[trigger] self.head_spec(matrix@[i]@[0], column),
                    HeadView::Ctor(ctor_view(*ctor)),
                )),
    {
        let ghost width = choose|w: int| w >= 1 && matrix_ok(self.pats@, matrix@, w);
        let mut out: Vec<Vec<Entry>> = Vec::new();
        let mut i: usize = 0;
        while i < matrix.len()
            invariant
                self.wf(),
                self.types.valid(column),
                width >= 1,
                matrix_ok(self.pats@, matrix@, width),
                i <= matrix@.len(),
                i == 0 ==> out@.len() == 0,
                no_or_heads(*self, matrix@, column) ==> (out@.len() == 0 <==> forall|j: int|
                    0 <= j < i ==> !covers(
                        #[trigger] self.head_spec(matrix@[j]@[0], column),
                        HeadView::Ctor(ctor_view(*ctor)),
                    )),
                matrix_ok(self.pats@, out@, arity + width - 1),
                (exists|j: int| 0 <= j < i && #[trigger] all_wild(self.pats@, matrix@[j]@)) ==> has_wild_row(self.pats@, out@),
                (exists|j: int|
                    0 <= j < i && #[trigger] row_names(
                        self.pats@,
                        self.types@,
                        self.aliases@,
                        matrix@[j]@,
                        ctor_view(*ctor),
                        column.0 as int,
                    )) ==> has_wild_row(self.pats@, out@),
            decreases matrix@.len() - i,
        {
            let mut more = self.specialise_one(&matrix[i], ctor, column, arity);
            let ghost before = out@;
            let ghost added = more@;
            out.append(&mut more);
            proof {
                if no_or_heads(*self, matrix@, column) {
                    assert(!(self.head_spec(matrix@[i as int]@[0], column) is Or));
                }
                assert forall|k: int| 0 <= k < out@.len() implies (#[trigger] out@[k])@.len() == arity + width - 1
                    && row_ok(self.pats@, out@[k]@) by {
                    if k >= before.len() {
                        assert(out@[k] == added[k - before.len()]);
                    }
                }
                if has_wild_row(self.pats@, before) {
                    let k = choose|k: int| 0 <= k < before.len() && #[trigger] all_wild(self.pats@, before[k]@);
                    assert(out@[k] == before[k]);
                }
                if has_wild_row(self.pats@, added) {
                    let k = choose|k: int| 0 <= k < added.len() && #[trigger] all_wild(self.pats@, added[k]@);
                    assert(out@[before.len() + k] == added[k]);
                }
            }
            i = i + 1;
        }
        proof {
            assert forall|w: int| w >= 1 && matrix_ok(self.pats@, matrix@, w) implies matrix_ok(
                self.pats@,
                out@,
                arity + w - 1,
            ) by {
                if matrix@.len() > 0 {
                    assert(matrix@[0]@.len() == w && matrix@[0]@.len() == width);
                }
            }
        }
        out
    }
}

impl<'a> Checker<'a> {
    /// One row of the default matrix: the row without its first cell when
    /// that cell catches everything, one row per alternative of an `a | b`,
    /// and none when the cell names a constructor.
    fn default_one(&self, row: &Vec<Entry>, column: Ty) -> (out: Vec<Vec<Entry>>)
        requires
            self.wf(),
            self.types.valid(column),
            row@.len() >= 1,
            row_ok(self.pats@, row@),
        ensures
            matrix_ok(self.pats@, out@, row@.len() - 1),
            all_wild(self.pats@, row@) ==> has_wild_row(self.pats@, out@),
            !(self.head_spec(row@[0], column) is Or) ==> out@.len() == (if self.head_spec(row@[0], column) is Wild {
                1int
            } else {
                0int
            }),
        decreases entry_rank(row@[0]),
    {
        let mut out: Vec<Vec<Entry>> = Vec::new();
        match self.head(row[0], column) {
            Head::Wild => {
                let mut tail: Vec<Entry> = Vec::new();
                push_tail(&mut tail, row, 1);
                out.push(tail);
                proof {
                    assert(out@[0]@ =~= row@.subrange(1, row@.len() as int));
                    assert forall|i: int| 0 <= i < out@[0]@.len() implies entry_ok(self.pats@, #[trigger] out@[0]@[i]) by {
                        assert(out@[0]@[i] == row@[i + 1]);
                    }
                    if all_wild(self.pats@, row@) {
                        assert forall|i: int| 0 <= i < out@[0]@.len() implies entry_wild(self.pats@, #[trigger] out@[0]@[i]) by {
                            assert(out@[0]@[i] == row@[i + 1]);
                        }
                        assert(all_wild(self.pats@, out@[0]@));
                    }
                }
            },
            Head::Or(id) => {
                let pats = self.pats;
                if let PatKind::Or(alternatives) = &pats[id].kind {
                    let mut k: usize = 0;
                    while k < alternatives.len()
                        invariant
                            self.wf(),
                            self.types.valid(column),
                            pats == self.pats,
                            row@.len() >= 1,
                            row_ok(self.pats@, row@),
                            row@[0] == Entry::Pat(id),
                            id < pats@.len(),
                            pats@[id as int].kind == PatKind::Or(*alternatives),
                            k <= alternatives@.len(),
                            matrix_ok(self.pats@, out@, row@.len() - 1),
                        decreases alternatives@.len() - k,
                    {
                        proof {
                            assert(sub_patterns(pats@[id as int].kind)[k as int] == alternatives@[k as int]);
                        }
                        let expanded = with_head(row, Entry::Pat(alternatives[k]));
                        proof {
                            assert forall|i: int| 0 <= i < expanded@.len() implies entry_ok(self.pats@, #[trigger] expanded@[i]) by {
                                if i > 0 {
                                    assert(expanded@[i] == row@[i]);
                                }
                            }
                        }
                        let mut more = self.default_one(&expanded, column);
                        let ghost before = out@;
                        let ghost added = more@;
                        out.append(&mut more);
                        proof {
                            assert forall|i: int| 0 <= i < out@.len() implies (#[trigger] out@[i])@.len() == row@.len() - 1
                                && row_ok(self.pats@, out@[i]@) by {
                                if i >= before.len() {
                                    assert(out@[i] == added[i - before.len()]);
                                }
                            }
                        }
                        k = k + 1;
                    }
                }
            },
            Head::Ctor(_) => {},
        }
        out
    }

    /// The rows that say nothing about the first column, with it removed.
    fn default(&self, matrix: &Vec<Vec<Entry>>, column: Ty) -> (out: Vec<Vec<Entry>>)
        requires
            self.wf(),
            self.types.valid(column),
            exists|w: int| w >= 1 && matrix_ok(self.pats@, matrix@, w),
        ensures
            forall|w: int| w >= 1 && matrix_ok(self.pats@, matrix@, w) ==> matrix_ok(self.pats@, out@, w - 1),
            has_wild_row(self.pats@, matrix@) ==> has_wild_row(self.pats@, out@),
            matrix@.len() == 0 ==> out@.len() == 0,
            no_or_heads(*self, matrix@, column) ==> (out@.len() == 0 <==> forall|i: int|
                0 <= i < matrix@.len() ==> !(#[trigger] self.head_spec(matrix@[i]@[0], column) is Wild)),
    {
        let ghost width = choose|w: int| w >= 1 && matrix_ok(self.pats@, matrix@, w);
        let mut out: Vec<Vec<Entry>> = Vec::new();
        let mut i: usize = 0;
        while i < matrix.len()
            invariant
                self.wf(),
                self.types.valid(column),
                width >= 1,
                matrix_ok(self.pats@, matrix@, width),
                i <= matrix@.len(),
                i == 0 ==> out@.len() == 0,
                no_or_heads(*self, matrix@, column) ==> (out@.len() == 0 <==> forall|j: int|
                    0 <= j < i ==> !(#[trigger] self.head_spec(matrix@[j]@[0], column) is Wild)),
                matrix_ok(self.pats@, out@, width - 1),
                (exists|j: int| 0 <= j < i && #[trigger] all_wild(self.pats@, matrix@[j]@)) ==> has_wild_row(self.pats@, out@),
            decreases matrix@.len() - i,
        {
            let mut more = self.default_one(&matrix[i], column);
            let ghost before = out@;
            let ghost added = more@;
            out.append(&mut more);
            proof {
                if no_or_heads(*self, matrix@, column) {
                    assert(!(self.head_spec(matrix@[i as int]@[0], column) is Or));
                }
                assert forall|k: int| 0 <= k < out@.len() implies (#[trigger] out@[k])@.len() == width - 1
                    && row_ok(self.pats@, out@[k]@) by {
                    if k >= before.len() {
                        assert(out@[k] == added[k - before.len()]);
                    }
                }
                if has_wild_row(self.pats@, before) {
                    let k = choose|k: int| 0 <= k < before.len() && #[trigger] all_wild(self.pats@, before[k]@);
                    assert(out@[k] == before[k]);
                }
                if has_wild_row(self.pats@, added) {
                    let k = choose|k: int| 0 <= k < added.len() && #[trigger] all_wild(self.pats@, added[k]@);
                    assert(out@[before.len() + k] == added[k]);
                }
            }
            i = i + 1;
        }
        proof {
            assert forall|w: int| w >= 1 && matrix_ok(self.pats@, matrix@, w) implies matrix_ok(
                self.pats@,
                out@,
                w - 1,
            ) by {
                if matrix@.len() > 0 {
                    assert(matrix@[0]@.len() == w && matrix@[0]@.len() == width);
                }
            }
        }
        out
    }

    /// Adds the head constructors a cell names, through its alternatives.
    fn heads_one(&self, e: Entry, column: Ty, used: &mut Vec<Ctor>)
        requires
            self.wf(),
            self.types.valid(column),
            entry_ok(self.pats@, e),
        ensures
            forall|c: CtorView|
                ctor_views(old(used)@).contains(c) ==> #[trigger] ctor_views(final(used)@).contains(c),
            self.head_spec(e, column) matches HeadView::Ctor(c) ==> ctor_views(final(used)@).contains(c),
            !(self.head_spec(e, column) is Or) ==> forall|c: CtorView|
                #[trigger] ctor_views(final(used)@).contains(c) ==> ctor_views(old(used)@).contains(c)
                    || self.head_spec(e, column) == HeadView::Ctor(c),
        decreases entry_rank(e),
    {
        match self.head(e, column) {
            Head::Wild => {},
            Head::Ctor(c) => {
                let ghost before = used@;
                let ghost cv = ctor_view(c);
                used.push(c);
                proof {
                    let views = ctor_views(used@);
                    assert(views[before.len() as int] == cv);
                    assert forall|d: CtorView| ctor_views(before).contains(d) implies #[trigger] views.contains(d) by {
                        let j = choose|j: int| 0 <= j < before.len() && ctor_views(before)[j] == d;
                        assert(views[j] == d);
                    }
                    assert forall|d: CtorView| #[trigger] views.contains(d) implies ctor_views(before).contains(d) || d == cv by {
                        let j = choose|j: int| 0 <= j < views.len() && views[j] == d;
                        if j < before.len() {
                            assert(ctor_views(before)[j] == d);
                        }
                    }
                }
            },
            Head::Or(id) => {
                let pats = self.pats;
                if let PatKind::Or(alternatives) = &pats[id].kind {
                    let mut k: usize = 0;
                    while k < alternatives.len()
                        invariant
                            self.wf(),
                            self.types.valid(column),
                            pats == self.pats,
                            e == Entry::Pat(id),
                            id < pats@.len(),
                            pats@[id as int].kind == PatKind::Or(*alternatives),
                            k <= alternatives@.len(),
                            forall|c: CtorView|
                                ctor_views(old(used)@).contains(c) ==> #[trigger] ctor_views(used@).contains(c),
                        decreases alternatives@.len() - k,
                    {
                        proof {
                            assert(sub_patterns(pats@[id as int].kind)[k as int] == alternatives@[k as int]);
                            assert(alternatives@[k as int] < id);
                        }
                        self.heads_one(Entry::Pat(alternatives[k]), column, used);
                        k = k + 1;
                    }
                }
            },
        }
    }

    /// Every head constructor the matrix names in its first column.
    fn heads_of(&self, matrix: &Vec<Vec<Entry>>, column: Ty) -> (used: Vec<Ctor>)
        requires
            self.wf(),
            self.types.valid(column),
            exists|w: int| w >= 1 && matrix_ok(self.pats@, matrix@, w),
        ensures
            forall|i: int|
                0 <= i < matrix@.len() ==> (self.head_spec(#[trigger] matrix@[i]@[0], column) matches HeadView::Ctor(
                    c,
                ) ==> ctor_views(used@).contains(c)),
            matrix@.len() == 0 ==> used@.len() == 0,
            no_or_heads(*self, matrix@, column) ==> forall|c: CtorView|
                #[trigger] ctor_views(used@).contains(c) ==> exists|i: int|
                    0 <= i < matrix@.len() && self.head_spec(#[trigger] matrix@[i]@[0], column) == HeadView::Ctor(c),
    {
        let ghost width = choose|w: int| w >= 1 && matrix_ok(self.pats@, matrix@, w);
        let mut used: Vec<Ctor> = Vec::new();
        let mut i: usize = 0;
        while i < matrix.len()
            invariant
                self.wf(),
                self.types.valid(column),
                width >= 1,
                matrix_ok(self.pats@, matrix@, width),
                i <= matrix@.len(),
                i == 0 ==> used@.len() == 0,
                forall|j: int|
                    0 <= j < i ==> (self.head_spec(#[trigger] matrix@[j]@[0], column) matches HeadView::Ctor(
                        c,
                    ) ==> ctor_views(used@).contains(c)),
                no_or_heads(*self, matrix@, column) ==> forall|c: CtorView|
                    #[trigger] ctor_views(used@).contains(c) ==> exists|j: int|
                        0 <= j < i && self.head_spec(#[trigger] matrix@[j]@[0], column) == HeadView::Ctor(c),
            decreases matrix@.len() - i,
        {
            proof {
                assert(entry_ok(self.pats@, matrix@[i as int]@[0]));
            }
            let ghost before = used@;
            self.heads_one(matrix[i][0], column, &mut used);
            proof {
                if no_or_heads(*self, matrix@, column) {
                    assert(!(self.head_spec(matrix@[i as int]@[0], column) is Or));
                    assert forall|c: CtorView| #[trigger] ctor_views(used@).contains(c) implies exists|j: int|
                        0 <= j < i + 1 && self.head_spec(#[trigger] matrix@[j]@[0], column) == HeadView::Ctor(c) by {
                        if ctor_views(before).contains(c) {
                            let j = choose|j: int|
                                0 <= j < i && self.head_spec(#[trigger] matrix@[j]@[0], column) == HeadView::Ctor(c);
                        } else {
                            assert(self.head_spec(matrix@[i as int]@[0], column) == HeadView::Ctor(c));
                        }
                    }
                }
            }
            i = i + 1;
        }
        used
    }
}

// ---------------------------------------------------------------------------
// Witnesses
// ---------------------------------------------------------------------------

/// A value no arm covers, shaped like the pattern that would cover it.
enum Witness {
    Wildcard,
    Null,
    Bool(bool),
    Lit(LitKey),
    Variant(DefId, Vec<Witness>),
    Record(DefId, Vec<(DefId, Witness)>),
    Tuple(Vec<Witness>),
    Unit,
}

/// No literal anywhere in the witness: a literal constructor is never
/// missing, so no witness of the exhaustiveness question holds one.
spec fn lit_free(w: Witness) -> bool
    decreases w,
{
    match w {
        Witness::Lit(_) => false,
        Witness::Variant(_, ws) => forall|i: int| 0 <= i < ws@.len() ==> lit_free(#[trigger] ws@[i]),
        Witness::Tuple(ws) => forall|i: int| 0 <= i < ws@.len() ==> lit_free(#[trigger] ws@[i]),
        Witness::Record(_, fs) => forall|i: int| 0 <= i < fs@.len() ==> lit_free(#[trigger] fs@[i].1),
        _ => true,
    }
}

/// What a [`Witness`] holds.
pub ghost enum WitnessView {
    Wildcard,
    Null,
    Bool(bool),
    Lit(LitKeyView),
    Variant(DefId, Seq<WitnessView>),
    Record(DefId, Seq<(DefId, WitnessView)>),
    Tuple(Seq<WitnessView>),
    Unit,
}

spec fn witness_view(w: Witness) -> WitnessView
    decreases w, 1int,
{
    match w {
        Witness::Wildcard => WitnessView::Wildcard,
        Witness::Null => WitnessView::Null,
        Witness::Bool(b) => WitnessView::Bool(b),
        Witness::Lit(k) => WitnessView::Lit(lit_key_view(k)),
        Witness::Variant(d, ws) => WitnessView::Variant(d, list_view(ws, ws@.len() as int)),
        Witness::Record(d, fs) => WitnessView::Record(d, fields_view(fs, fs@.len() as int)),
        Witness::Tuple(ws) => WitnessView::Tuple(list_view(ws, ws@.len() as int)),
        Witness::Unit => WitnessView::Unit,
    }
}

/// The views of the first `n` witnesses of a list.
spec fn list_view(ws: Vec<Witness>, n: int) -> Seq<WitnessView>
    decreases ws, n,
{
    if n <= 0 || n > ws@.len() {
        seq![]
    } else {
        proof {
            assert(decreases_to!(ws => ws@[n - 1]));
        }
        list_view(ws, n - 1).push(witness_view(ws@[n - 1]))
    }
}

/// The views of the first `n` fields of a record witness.
spec fn fields_view(fs: Vec<(DefId, Witness)>, n: int) -> Seq<(DefId, WitnessView)>
    decreases fs, n,
{
    if n <= 0 || n > fs@.len() {
        seq![]
    } else {
        proof {
            assert(decreases_to!(fs => fs@[n - 1].1));
        }
        fields_view(fs, n - 1).push((fs@[n - 1].0, witness_view(fs@[n - 1].1)))
    }
}

/// A list's view is its witnesses' views, one for one.
proof fn lemma_list_view(ws: Vec<Witness>, n: int)
    requires
        0 <= n <= ws@.len(),
    ensures
        list_view(ws, n).len() == n,
        forall|i: int| 0 <= i < n ==> #[trigger] list_view(ws, n)[i] == witness_view(ws@[i]),
    decreases n,
{
    if n > 0 {
        lemma_list_view(ws, n - 1);
    }
}

/// A record witness's fields' view is their names and views, one for one.
proof fn lemma_fields_view(fs: Vec<(DefId, Witness)>, n: int)
    requires
        0 <= n <= fs@.len(),
    ensures
        fields_view(fs, n).len() == n,
        forall|i: int| 0 <= i < n ==> #[trigger] fields_view(fs, n)[i] == (fs@[i].0, witness_view(fs@[i].1)),
    decreases n,
{
    if n > 0 {
        lemma_fields_view(fs, n - 1);
    }
}

/// Two lists with the same witnesses, one for one, have the same view.
proof fn lemma_list_view_same(a: Vec<Witness>, b: Vec<Witness>)
    requires
        a@.len() == b@.len(),
        forall|i: int| 0 <= i < a@.len() ==> witness_view(#[trigger] a@[i]) == witness_view(b@[i]),
    ensures
        list_view(a, a@.len() as int) == list_view(b, b@.len() as int),
{
    lemma_list_view(a, a@.len() as int);
    lemma_list_view(b, b@.len() as int);
    assert(list_view(a, a@.len() as int) =~= list_view(b, b@.len() as int));
}

/// Two field lists with the same names and witnesses have the same view.
proof fn lemma_fields_view_same(a: Vec<(DefId, Witness)>, b: Vec<(DefId, Witness)>)
    requires
        a@.len() == b@.len(),
        forall|i: int|
            0 <= i < a@.len() ==> (#[trigger] a@[i]).0 == b@[i].0 && witness_view(a@[i].1) == witness_view(b@[i].1),
    ensures
        fields_view(a, a@.len() as int) == fields_view(b, b@.len() as int),
{
    lemma_fields_view(a, a@.len() as int);
    lemma_fields_view(b, b@.len() as int);
    assert(fields_view(a, a@.len() as int) =~= fields_view(b, b@.len() as int));
}

/// Every witness in every row holds no literal.
spec fn rows_lit_free(rows: Seq<Vec<Witness>>) -> bool {
    forall|k: int, m: int| 0 <= k < rows.len() && 0 <= m < rows[k]@.len() ==> lit_free(#[trigger] rows[k]@[m])
}

/// Every row has `n` witnesses, one per column.
spec fn rows_len(rows: Seq<Vec<Witness>>, n: int) -> bool {
    forall|k: int| 0 <= k < rows.len() ==> (#[trigger] rows[k])@.len() == n
}

/// A copy of a literal constructor's identity.
fn copy_key(k: &LitKey) -> (out: LitKey)
    ensures
        lit_key_view(out) == lit_key_view(*k),
{
    match k {
        LitKey::Int(v) => LitKey::Int(*v),
        LitKey::Float(b) => LitKey::Float(*b),
        LitKey::Str(s) => LitKey::Str(s.clone()),
        LitKey::Char(c) => LitKey::Char(*c),
    }
}

/// A copy of a witness.
fn copy_witness(w: &Witness) -> (out: Witness)
    ensures
        witness_view(out) == witness_view(*w),
        lit_free(*w) ==> lit_free(out),
    decreases w, 1int,
{
    match w {
        Witness::Wildcard => Witness::Wildcard,
        Witness::Null => Witness::Null,
        Witness::Bool(b) => Witness::Bool(*b),
        Witness::Lit(k) => Witness::Lit(copy_key(k)),
        Witness::Unit => Witness::Unit,
        Witness::Variant(d, ws) => {
            let c = copy_list(ws);
            proof {
                lemma_list_view_same(c, *ws);
            }
            Witness::Variant(*d, c)
        },
        Witness::Tuple(ws) => {
            let c = copy_list(ws);
            proof {
                lemma_list_view_same(c, *ws);
            }
            Witness::Tuple(c)
        },
        Witness::Record(d, fs) => {
            let c = copy_fields(fs);
            proof {
                lemma_fields_view_same(c, *fs);
            }
            Witness::Record(*d, c)
        },
    }
}

/// A copy of a list of witnesses.
fn copy_list(ws: &Vec<Witness>) -> (out: Vec<Witness>)
    ensures
        out@.len() == ws@.len(),
        forall|j: int| 0 <= j < ws@.len() ==> witness_view(#[trigger] out@[j]) == witness_view(ws@[j]),
        (forall|j: int| 0 <= j < ws@.len() ==> lit_free(#[trigger] ws@[j])) ==> forall|j: int|
            0 <= j < out@.len() ==> lit_free(#[trigger] out@[j]),
    decreases ws, 0int,
{
    let mut out: Vec<Witness> = Vec::new();
    let mut k: usize = 0;
    while k < ws.len()
        invariant
            k <= ws@.len(),
            out@.len() == k,
            forall|j: int| 0 <= j < k ==> witness_view(#[trigger] out@[j]) == witness_view(ws@[j]),
            (forall|j: int| 0 <= j < ws@.len() ==> lit_free(#[trigger] ws@[j])) ==> forall|j: int|
                0 <= j < k ==> lit_free(#[trigger] out@[j]),
        decreases ws@.len() - k,
    {
        proof {
            assert(decreases_to!(ws => ws@[k as int]));
        }
        let c = copy_witness(&ws[k]);
        out.push(c);
        k = k + 1;
    }
    out
}

/// A copy of a record witness's fields.
fn copy_fields(fs: &Vec<(DefId, Witness)>) -> (out: Vec<(DefId, Witness)>)
    ensures
        out@.len() == fs@.len(),
        forall|j: int|
            0 <= j < fs@.len() ==> (#[trigger] out@[j]).0 == fs@[j].0 && witness_view(out@[j].1) == witness_view(
                fs@[j].1,
            ),
        (forall|j: int| 0 <= j < fs@.len() ==> lit_free(#[trigger] fs@[j].1)) ==> forall|j: int|
            0 <= j < out@.len() ==> lit_free(#[trigger] out@[j].1),
    decreases fs, 0int,
{
    let mut out: Vec<(DefId, Witness)> = Vec::new();
    let mut k: usize = 0;
    while k < fs.len()
        invariant
            k <= fs@.len(),
            out@.len() == k,
            forall|j: int|
                0 <= j < k ==> (#[trigger] out@[j]).0 == fs@[j].0 && witness_view(out@[j].1) == witness_view(
                    fs@[j].1,
                ),
            (forall|j: int| 0 <= j < fs@.len() ==> lit_free(#[trigger] fs@[j].1)) ==> forall|j: int|
                0 <= j < k ==> lit_free(#[trigger] out@[j].1),
        decreases fs@.len() - k,
    {
        proof {
            assert(decreases_to!(fs => fs@[k as int].1));
        }
        let c = copy_witness(&fs[k].1);
        out.push((fs[k].0, c));
        k = k + 1;
    }
    out
}

/// A copy of a row of witnesses.
fn copy_row(row: &Vec<Witness>) -> (out: Vec<Witness>)
    ensures
        out@.len() == row@.len(),
        forall|j: int| 0 <= j < row@.len() ==> witness_view(#[trigger] out@[j]) == witness_view(row@[j]),
        (forall|j: int| 0 <= j < row@.len() ==> lit_free(#[trigger] row@[j])) ==> forall|j: int|
            0 <= j < out@.len() ==> lit_free(#[trigger] out@[j]),
{
    let mut out: Vec<Witness> = Vec::new();
    let mut k: usize = 0;
    while k < row.len()
        invariant
            k <= row@.len(),
            out@.len() == k,
            forall|j: int| 0 <= j < k ==> witness_view(#[trigger] out@[j]) == witness_view(row@[j]),
            (forall|j: int| 0 <= j < row@.len() ==> lit_free(#[trigger] row@[j])) ==> forall|j: int|
                0 <= j < k ==> lit_free(#[trigger] out@[j]),
        decreases row@.len() - k,
    {
        let c = copy_witness(&row[k]);
        out.push(c);
        k = k + 1;
    }
    out
}

/// The constructors of a type's set are never literals.
proof fn lemma_set_has_no_literal(
    kinds: Seq<KindView>,
    aliases: Map<DefId, Ty>,
    defs: Seq<Definition>,
    decls: Declarations,
    column: int,
    k: int,
)
    requires
        ctor_set(kinds, aliases, defs, decls, column) matches Some(all) && 0 <= k < all.len(),
    ensures
        !(ctor_set(kinds, aliases, defs, decls, column)->0[k] is Lit),
        ctor_set(kinds, aliases, defs, decls, column)->0[k] is Present ==> nullable_inner(kinds, aliases, column) is Some,
{
}

/// The witness a constructor makes of its fields' witnesses. A present
/// value is its one field, `_` when none was given; a record takes one field
/// per declared field, in declaration order, `_` where none was given, and
/// none when the record is not declared.
spec fn assembled(decls: Declarations, c: CtorView, fields: Seq<WitnessView>) -> WitnessView {
    match c {
        CtorView::Null => WitnessView::Null,
        CtorView::Present => if fields.len() > 0 {
            fields[0]
        } else {
            WitnessView::Wildcard
        },
        CtorView::Bool(b) => WitnessView::Bool(b),
        CtorView::Lit(k) => WitnessView::Lit(k),
        CtorView::Unit => WitnessView::Unit,
        CtorView::Tuple(_) => WitnessView::Tuple(fields),
        CtorView::Variant(d) => WitnessView::Variant(d, fields),
        CtorView::Record(d) => WitnessView::Record(
            d,
            if decls.records().dom().contains(d) {
                Seq::new(
                    decls.records()[d].fields@.len(),
                    |i: int|
                        (
                            decls.records()[d].fields@[i].0,
                            if i < fields.len() {
                                fields[i]
                            } else {
                                WitnessView::Wildcard
                            },
                        ),
                )
            } else {
                seq![]
            },
        ),
    }
}

/// `n` wildcards.
spec fn wildcards(n: int) -> Seq<WitnessView> {
    Seq::new(n as nat, |i: int| WitnessView::Wildcard)
}

impl<'a> Checker<'a> {
    /// Puts a constructor back together from the witnesses of its fields.
    fn assemble(&self, ctor: &Ctor, fields: Vec<Witness>) -> (w: Witness)
        requires
            self.wf(),
        ensures
            witness_view(w) == assembled(*self.decls, ctor_view(*ctor), list_view(fields, fields@.len() as int)),
            !(ctor_view(*ctor) is Lit) && (forall|j: int| 0 <= j < fields@.len() ==> lit_free(#[trigger] fields@[j]))
                ==> lit_free(w),
    {
        let ghost given = fields@;
        let ghost given_list = fields;
        proof {
            lemma_list_view(given_list, given.len() as int);
        }
        let mut fields = fields;
        match ctor {
            Ctor::Null => Witness::Null,
            Ctor::Present => {
                if fields.len() > 0 {
                    let w = fields.remove(0);
                    assert(w == given[0]);
                    w
                } else {
                    Witness::Wildcard
                }
            },
            Ctor::Bool(b) => Witness::Bool(*b),
            Ctor::Lit(k) => Witness::Lit(copy_key(k)),
            Ctor::Unit => Witness::Unit,
            Ctor::Tuple(_) => Witness::Tuple(fields),
            Ctor::Variant(def) => Witness::Variant(*def, fields),
            Ctor::Record(def) => {
                let mut pairs: Vec<(DefId, Witness)> = Vec::new();
                if let Some(record) = self.decls.record(*def) {
                    let mut k: usize = 0;
                    while k < record.fields.len()
                        invariant
                            k <= record.fields@.len(),
                            pairs@.len() == k,
                            k <= given.len() ==> fields@ == given.subrange(k as int, given.len() as int),
                            k > given.len() ==> fields@.len() == 0,
                            forall|j: int|
                                0 <= j < k ==> (#[trigger] pairs@[j]).0 == record.fields@[j].0 && witness_view(pairs@[j].1)
                                    == if j < given.len() {
                                    witness_view(given[j])
                                } else {
                                    WitnessView::Wildcard
                                },
                            (forall|j: int| 0 <= j < given.len() ==> lit_free(#[trigger] given[j])) ==> (forall|j: int|
                                0 <= j < fields@.len() ==> lit_free(#[trigger] fields@[j])),
                            (forall|j: int| 0 <= j < given.len() ==> lit_free(#[trigger] given[j])) ==> (forall|j: int|
                                0 <= j < pairs@.len() ==> lit_free(#[trigger] pairs@[j].1)),
                        decreases record.fields@.len() - k,
                    {
                        let ghost before = fields@;
                        let w = if fields.len() > 0 {
                            fields.remove(0)
                        } else {
                            Witness::Wildcard
                        };
                        proof {
                            if before.len() > 0 {
                                assert(w == before[0]);
                                assert forall|j: int| 0 <= j < fields@.len() implies fields@[j] == before[j + 1] by {
                                }
                                assert(fields@ =~= given.subrange(k + 1, given.len() as int));
                            }
                        }
                        pairs.push((record.fields[k].0, w));
                        k = k + 1;
                    }
                }
                proof {
                    lemma_fields_view(pairs, pairs@.len() as int);
                    let want = assembled(*self.decls, ctor_view(*ctor), list_view(given_list, given.len() as int));
                    if let WitnessView::Record(_, fv) = want {
                        assert(fields_view(pairs, pairs@.len() as int) =~= fv);
                    }
                }
                Witness::Record(*def, pairs)
            },
        }
    }

    /// A constructor as a witness with every field a wildcard.
    fn witness_of(&self, ctor: &Ctor) -> (w: Witness)
        requires
            self.wf(),
        ensures
            witness_view(w) == assembled(
                *self.decls,
                ctor_view(*ctor),
                wildcards(arity_of(*self.decls, ctor_view(*ctor))),
            ),
            !(ctor_view(*ctor) is Lit) ==> lit_free(w),
    {
        let n = self.arity(ctor);
        let mut fields: Vec<Witness> = Vec::new();
        let mut k: usize = 0;
        while k < n
            invariant
                k <= n,
                fields@.len() == k,
                forall|j: int| 0 <= j < fields@.len() ==> lit_free(#[trigger] fields@[j]),
                forall|j: int| 0 <= j < fields@.len() ==> #[trigger] fields@[j] == Witness::Wildcard,
            decreases n - k,
        {
            fields.push(Witness::Wildcard);
            k = k + 1;
        }
        proof {
            lemma_list_view(fields, n as int);
            assert(list_view(fields, n as int) =~= wildcards(n as int));
        }
        self.assemble(ctor, fields)
    }

    /// Puts a constructor back in front of the witnesses its fields produced.
    /// The recursion builds each answer back to front, so the constructor's
    /// fields are the last `arity` entries of a row, reversed.
    fn rebuild(&self, ctor: &Ctor, arity: usize, found: Vec<Vec<Witness>>) -> (out: Vec<Vec<Witness>>)
        requires
            self.wf(),
            forall|k: int| 0 <= k < found@.len() ==> (#[trigger] found@[k])@.len() >= arity,
        ensures
            out@.len() == found@.len(),
            forall|k: int| 0 <= k < out@.len() ==> (#[trigger] out@[k])@.len() == found@[k]@.len() - arity + 1,
            !(ctor_view(*ctor) is Lit) && rows_lit_free(found@) ==> rows_lit_free(out@),
    {
        let ghost all = found@;
        let mut rest = found;
        let mut out: Vec<Vec<Witness>> = Vec::new();
        while rest.len() > 0
            invariant
                self.wf(),
                out@.len() + rest@.len() == all.len(),
                rest@ == all.subrange(out@.len() as int, all.len() as int),
                forall|k: int| 0 <= k < all.len() ==> (#[trigger] all[k])@.len() >= arity,
                forall|k: int| 0 <= k < out@.len() ==> (#[trigger] out@[k])@.len() == all[k]@.len() - arity + 1,
                !(ctor_view(*ctor) is Lit) && rows_lit_free(all) ==> rows_lit_free(out@),
            decreases rest@.len(),
        {
            let ghost at = out@.len() as int;
            let mut row = rest.remove(0);
            assert(row == all[at]);
            let ghost whole = row@;
            let mut fields: Vec<Witness> = Vec::new();
            let mut m: usize = 0;
            while m < arity
                invariant
                    m <= arity <= whole.len(),
                    row@ == whole.take(whole.len() - m),
                    fields@.len() == m,
                    (forall|j: int| 0 <= j < whole.len() ==> lit_free(#[trigger] whole[j])) ==> (forall|j: int|
                        0 <= j < fields@.len() ==> lit_free(#[trigger] fields@[j])),
                decreases arity - m,
            {
                let w = row.pop().unwrap();
                assert(w == whole[whole.len() - m - 1]);
                assert(row@ =~= whole.take(whole.len() - m - 1));
                fields.push(w);
                m = m + 1;
            }
            let built = self.assemble(ctor, fields);
            row.push(built);
            let ghost before = out@;
            out.push(row);
            proof {
                assert(rest@ =~= all.subrange(out@.len() as int, all.len() as int));
                assert(out@[at]@.len() == whole.len() - arity + 1);
                if !(ctor_view(*ctor) is Lit) && rows_lit_free(all) {
                    assert forall|j: int| 0 <= j < whole.len() implies lit_free(#[trigger] whole[j]) by {
                        assert(lit_free(all[at]@[j]));
                    }
                    assert forall|k: int, n: int| 0 <= k < out@.len() && 0 <= n < out@[k]@.len() implies lit_free(
                        #[trigger] out@[k]@[n],
                    ) by {
                        if k < at {
                            assert(out@[k] == before[k]);
                        } else {
                            if n < whole.len() - arity {
                                assert(out@[k]@[n] == whole[n]);
                            }
                        }
                    }
                }
            }
        }
        out
    }
}

/// Every constructor of the column's type, when there are finitely many, is
/// named by some row with catch-alls under it and after it.
spec fn named_all(
    pats: Seq<Pat>,
    kinds: Seq<KindView>,
    aliases: Map<DefId, Ty>,
    defs: Seq<Definition>,
    decls: Declarations,
    matrix: Seq<Vec<Entry>>,
    column: Ty,
) -> bool {
    &&& ctor_set(kinds, aliases, defs, decls, column.0 as int) is Some
    &&& forall|k: int|
        #![trigger ctor_set(kinds, aliases, defs, decls, column.0 as int)->0[k]]
        0 <= k < ctor_set(kinds, aliases, defs, decls, column.0 as int)->0.len() ==> exists|i: int|
            0 <= i < matrix.len() && #[trigger] row_names(
                pats,
                kinds,
                aliases,
                matrix[i]@,
                ctor_set(kinds, aliases, defs, decls, column.0 as int)->0[k],
                column.0 as int,
            )
}

/// A column whose values `useful` can speak for and of which there are
/// some: a type of the table with no hole and no alias in it, and not one
/// known to have no constructor at all.
spec fn open_column(c: Checker, column: Ty) -> bool {
    &&& c.types.valid(column)
    &&& !mentions_error(c.types@, column.0 as int)
    &&& !mentions_alias(c.types@, c.aliases@, column.0 as int)
    &&& c.ctor_set_spec(column) != Some(Seq::<CtorView>::empty())
}

/// A column over a type of the table with no hole and no alias in it.
spec fn plain_column(c: Checker, column: Ty) -> bool {
    &&& c.types.valid(column)
    &&& !mentions_error(c.types@, column.0 as int)
    &&& !mentions_alias(c.types@, c.aliases@, column.0 as int)
}

/// A plain column over a type whose values never run out: no finite
/// constructor set.
spec fn flat_column(c: Checker, column: Ty) -> bool {
    &&& plain_column(c, column)
    &&& c.ctor_set_spec(column) is None
}

/// A plain column over a type with finitely many constructors, none of
/// which has fields.
spec fn nullary_column(c: Checker, column: Ty) -> bool {
    &&& plain_column(c, column)
    &&& c.ctor_set_spec(column) is Some
    &&& forall|k: int|
        0 <= k < c.ctor_set_spec(column)->0.len() ==> arity_of(*c.decls, #[trigger] c.ctor_set_spec(column)->0[k]) == 0
}

/// No row of the matrix has a head at this column that covers constructor
/// `k`.
spec fn uncovered(c: Checker, matrix: Seq<Vec<Entry>>, column: Ty, k: CtorView) -> bool {
    forall|i: int| 0 <= i < matrix.len() ==> !covers(#[trigger] c.head_spec(matrix[i]@[0], column), HeadView::Ctor(k))
}

/// `w` is the witness of a constructor of the column's type that no row
/// covers, built with nothing under it.
spec fn names_missing(c: Checker, matrix: Seq<Vec<Entry>>, column: Ty, w: WitnessView) -> bool {
    exists|k: int|
        0 <= k < c.ctor_set_spec(column)->0.len() && #[trigger] uncovered(c, matrix, column, c.ctor_set_spec(column)->0[k])
            && w == assembled(*c.decls, c.ctor_set_spec(column)->0[k], wildcards(0))
}

/// Some row of the matrix names a constructor at this column.
spec fn names_some_ctor(c: Checker, matrix: Seq<Vec<Entry>>, column: Ty) -> bool {
    exists|i: int| 0 <= i < matrix.len() && (#[trigger] c.head_spec(matrix[i]@[0], column) is Ctor)
}

/// Two checkers over the same tables see the same heads.
proof fn lemma_same_heads(a: Checker, b: Checker, matrix: Seq<Vec<Entry>>, column: Ty)
    requires
        same_tables(a, b),
    ensures
        forall|i: int| 0 <= i < matrix.len() ==> #[trigger] a.head_spec(matrix[i]@[0], column) == b.head_spec(matrix[i]@[0], column),
        no_or_heads(a, matrix, column) == no_or_heads(b, matrix, column),
        forall|k: CtorView| #[trigger] uncovered(a, matrix, column, k) == uncovered(b, matrix, column, k),
{
    assert forall|i: int| 0 <= i < matrix.len() implies #[trigger] a.head_spec(matrix[i]@[0], column) == b.head_spec(
        matrix[i]@[0],
        column,
    ) by {}
    assert forall|k: CtorView| #[trigger] uncovered(a, matrix, column, k) == uncovered(b, matrix, column, k) by {
        if uncovered(a, matrix, column, k) {
            assert forall|i: int| 0 <= i < matrix.len() implies !covers(#[trigger] b.head_spec(matrix[i]@[0], column), HeadView::Ctor(k)) by {
                assert(a.head_spec(matrix[i]@[0], column) == b.head_spec(matrix[i]@[0], column));
            }
        }
        if uncovered(b, matrix, column, k) {
            assert forall|i: int| 0 <= i < matrix.len() implies !covers(#[trigger] a.head_spec(matrix[i]@[0], column), HeadView::Ctor(k)) by {
                assert(a.head_spec(matrix[i]@[0], column) == b.head_spec(matrix[i]@[0], column));
            }
        }
    }
    if no_or_heads(a, matrix, column) {
        assert forall|i: int| 0 <= i < matrix.len() implies !(#[trigger] b.head_spec(matrix[i]@[0], column) is Or) by {
            assert(a.head_spec(matrix[i]@[0], column) == b.head_spec(matrix[i]@[0], column));
        }
    }
    if no_or_heads(b, matrix, column) {
        assert forall|i: int| 0 <= i < matrix.len() implies !(#[trigger] a.head_spec(matrix[i]@[0], column) is Or) by {
            assert(a.head_spec(matrix[i]@[0], column) == b.head_spec(matrix[i]@[0], column));
        }
    }
}

/// A query whose head catches everything or names a constructor with no
/// fields.
spec fn flat_query(c: Checker, query: Seq<Entry>, column: Ty) -> bool {
    c.head_spec(query[0], column) is Wild || (c.head_spec(query[0], column) matches HeadView::Ctor(k) && arity_of(
        *c.decls,
        k,
    ) == 0)
}

/// Two checkers over the same tables.
spec fn same_tables(a: Checker, b: Checker) -> bool {
    &&& a.pats == b.pats
    &&& a.defs == b.defs
    &&& a.decls == b.decls
    &&& a.types == b.types
    &&& a.aliases == b.aliases
}

impl<'a> Checker<'a> {
    /// Maranget's `I`: the values that match `query` and no row of
    /// `matrix`, as witness rows, one witness per column, each row built
    /// back to front. An empty answer means the query is useless: covered.
    /// `None` is the budget, or a column this module cannot speak for.
    fn useful(&mut self, matrix: &Vec<Vec<Entry>>, query: &Vec<Entry>, cols: &Vec<Ty>) -> (r: Option<Vec<Vec<Witness>>>)
        requires
            old(self).wf(),
            old(self).spent <= BUDGET,
            query@.len() == cols@.len(),
            row_ok(old(self).pats@, query@),
            matrix_ok(old(self).pats@, matrix@, cols@.len() as int),
        ensures
            same_tables(*final(self), *old(self)),
            old(self).spent < final(self).spent <= BUDGET + 1,
            r is Some ==> final(self).spent <= BUDGET,
            r matches Some(ws) ==> rows_len(ws@, cols@.len() as int),
            r matches Some(ws) ==> (only_wild(query@) ==> rows_lit_free(ws@)),
            has_wild_row(old(self).pats@, matrix@) ==> (r is None || r->0@.len() == 0),
            cols@.len() >= 1 && query@[0] == Entry::Wild && named_all(old(self).pats@, old(self).types@, old(self).aliases@, old(self).defs@, *old(self).decls, matrix@, cols@[0]) ==> (r is None
                || r->0@.len() == 0),
            matrix@.len() == 0 && cols@.len() == 0 && old(self).spent < BUDGET ==> (r matches Some(ws) && ws@.len() == 1),
            matrix@.len() == 0 && cols@.len() == 1 && query@[0] == Entry::Wild && old(self).spent + 1 < BUDGET
                && open_column(*old(self), cols@[0]) ==> (r matches Some(ws) && ws@.len() >= 1),
            cols@.len() == 0 && old(self).spent < BUDGET ==> final(self).spent == old(self).spent + 1 && (r matches Some(
                ws,
            ) && ws@.len() == (if matrix@.len() == 0 {
                1int
            } else {
                0int
            })),
            cols@.len() == 1 && flat_column(*old(self), cols@[0]) && no_or_heads(*old(self), matrix@, cols@[0])
                && flat_query(*old(self), query@, cols@[0]) && old(self).spent + 2 <= BUDGET ==> {
                &&& final(self).spent == old(self).spent + 2
                &&& r matches Some(ws)
                &&& (ws@.len() > 0 <==> forall|i: int|
                    0 <= i < matrix@.len() ==> !covers(
                        #[trigger] old(self).head_spec(matrix@[i]@[0], cols@[0]),
                        old(self).head_spec(query@[0], cols@[0]),
                    ))
                &&& old(self).head_spec(query@[0], cols@[0]) is Wild && ws@.len() > 0 ==> ws@.len() == 1
                    && ws@[0]@ == seq![Witness::Wildcard]
            },
            cols@.len() == 1 && plain_column(*old(self), cols@[0]) && no_or_heads(*old(self), matrix@, cols@[0])
                && (old(self).head_spec(query@[0], cols@[0]) matches HeadView::Ctor(k) && arity_of(*old(self).decls, k) == 0)
                && old(self).spent + 2 <= BUDGET ==> {
                &&& final(self).spent == old(self).spent + 2
                &&& r matches Some(ws)
                &&& (ws@.len() > 0 <==> forall|i: int|
                    0 <= i < matrix@.len() ==> !covers(
                        #[trigger] old(self).head_spec(matrix@[i]@[0], cols@[0]),
                        old(self).head_spec(query@[0], cols@[0]),
                    ))
            },
            cols@.len() == 1 && nullary_column(*old(self), cols@[0]) && no_or_heads(*old(self), matrix@, cols@[0])
                && old(self).head_spec(query@[0], cols@[0]) is Wild
                && old(self).spent + old(self).ctor_set_spec(cols@[0])->0.len() + 2 <= BUDGET ==> {
                &&& final(self).spent <= old(self).spent + old(self).ctor_set_spec(cols@[0])->0.len() + 2
                &&& r matches Some(ws)
                &&& (ws@.len() > 0 <==> exists|k: int|
                    0 <= k < old(self).ctor_set_spec(cols@[0])->0.len() && #[trigger] uncovered(
                        *old(self),
                        matrix@,
                        cols@[0],
                        old(self).ctor_set_spec(cols@[0])->0[k],
                    ))
            },
            cols@.len() == 1 && nullary_column(*old(self), cols@[0]) && no_or_heads(*old(self), matrix@, cols@[0])
                && old(self).head_spec(query@[0], cols@[0]) is Wild
                && old(self).spent + old(self).ctor_set_spec(cols@[0])->0.len() + 2 <= BUDGET && names_some_ctor(
                *old(self),
                matrix@,
                cols@[0],
            ) ==> (r matches Some(ws) ==> forall|j: int|
                0 <= j < ws@.len() ==> (#[trigger] ws@[j])@.len() == 1 && names_missing(
                    *old(self),
                    matrix@,
                    cols@[0],
                    witness_view(ws@[j]@[0]),
                )),
        decreases BUDGET - old(self).spent, 1int,
    {
        let ghost flat = cols@.len() == 1 && flat_column(*old(self), cols@[0]) && no_or_heads(*old(self), matrix@, cols@[0])
            && flat_query(*old(self), query@, cols@[0]) && old(self).spent + 2 <= BUDGET;
        let ghost lone = cols@.len() == 1 && plain_column(*old(self), cols@[0]) && no_or_heads(*old(self), matrix@, cols@[0])
            && (old(self).head_spec(query@[0], cols@[0]) matches HeadView::Ctor(k) && arity_of(*old(self).decls, k) == 0)
            && old(self).spent + 2 <= BUDGET;
        let ghost fin = cols@.len() == 1 && nullary_column(*old(self), cols@[0]) && no_or_heads(*old(self), matrix@, cols@[0])
            && old(self).head_spec(query@[0], cols@[0]) is Wild
            && old(self).spent + old(self).ctor_set_spec(cols@[0])->0.len() + 2 <= BUDGET;
        self.spent = self.spent + 1;
        if self.spent > BUDGET {
            return None;
        }
        if cols.len() == 0 {
            let mut out: Vec<Vec<Witness>> = Vec::new();
            if matrix.len() == 0 {
                out.push(Vec::new());
            }
            proof {
                if has_wild_row(self.pats@, matrix@) {
                    let i = choose|i: int| 0 <= i < matrix@.len() && #[trigger] all_wild(self.pats@, matrix@[i]@);
                }
            }
            return Some(out);
        }
        let column = cols[0];
        if column.0 >= self.types.len() {
            return None;
        }
        if self.types.references_error(column) || self.aliases.mentions_any(self.types, column) {
            return None;
        }
        proof {
            assert(entry_ok(self.pats@, query@[0]));
        }
        match self.head(query[0], column) {
            Head::Or(id) => {
                let pats = self.pats;
                let mut found: Vec<Vec<Witness>> = Vec::new();
                if let PatKind::Or(alternatives) = &pats[id].kind {
                    let mut k: usize = 0;
                    while k < alternatives.len()
                        invariant
                            self.wf(),
                            same_tables(*self, *old(self)),
                            pats == self.pats,
                            old(self).spent < self.spent <= BUDGET,
                            query@.len() == cols@.len(),
                            query@.len() >= 1,
                            row_ok(self.pats@, query@),
                            matrix_ok(self.pats@, matrix@, cols@.len() as int),
                            query@[0] == Entry::Pat(id),
                            id < pats@.len(),
                            pats@[id as int].kind == PatKind::Or(*alternatives),
                            k <= alternatives@.len(),
                            rows_len(found@, cols@.len() as int),
                            has_wild_row(self.pats@, matrix@) ==> found@.len() == 0,
                        ensures
                            self.wf(),
                            same_tables(*self, *old(self)),
                            old(self).spent < self.spent <= BUDGET,
                            rows_len(found@, cols@.len() as int),
                            has_wild_row(self.pats@, matrix@) ==> found@.len() == 0,
                        decreases alternatives@.len() - k,
                    {
                        proof {
                            assert(sub_patterns(pats@[id as int].kind)[k as int] == alternatives@[k as int]);
                        }
                        let row = with_head(query, Entry::Pat(alternatives[k]));
                        proof {
                            assert forall|i: int| 0 <= i < row@.len() implies entry_ok(self.pats@, #[trigger] row@[i]) by {
                                if i > 0 {
                                    assert(row@[i] == query@[i]);
                                }
                            }
                        }
                        let mut deeper = match self.useful(matrix, &row, cols) {
                            Some(d) => d,
                            None => {
                                return None;
                            },
                        };
                        let ghost before = found@;
                        let ghost added = deeper@;
                        found.append(&mut deeper);
                        proof {
                            assert forall|j: int| 0 <= j < found@.len() implies (#[trigger] found@[j])@.len() == cols@.len() by {
                                if j >= before.len() {
                                    assert(found@[j] == added[j - before.len()]);
                                }
                            }
                        }
                        if found.len() >= SHOWN * 2 {
                            break;
                        }
                        k = k + 1;
                    }
                }
                proof {
                    assert(!only_wild(query@)) by {
                        assert(query@[0] != Entry::Wild);
                    }
                }
                Some(found)
            },
            Head::Ctor(ctor) => {
                proof {
                    assert(matrix_ok(self.pats@, matrix@, cols@.len() as int));
                }
                let fields = self.field_tys(&ctor, column, matrix, query);
                let arity = fields.len();
                let ghost mid = *self;
                let specialised = self.specialise(matrix, &ctor, column, arity);
                let row = match self.specialise_row(query, &ctor, column, arity) {
                    Some(r) => r,
                    None => {
                        return None;
                    },
                };
                let mut tys = fields;
                push_tys(&mut tys, cols, 1);
                proof {
                    if flat || lone {
                        assert(self.head_spec(query@[0], column) == old(self).head_spec(query@[0], column));
                        assert(arity_of(*self.decls, ctor_view(ctor)) == 0);
                        assert(tys@.len() == 0);
                        assert forall|i: int| 0 <= i < matrix@.len() implies !(#[trigger] self.head_spec(matrix@[i]@[0], column) is Or) by {
                            assert(self.head_spec(matrix@[i]@[0], column) == old(self).head_spec(matrix@[i]@[0], column));
                        }
                    }
                }
                let found = match self.useful(&specialised, &row, &tys) {
                    Some(f) => f,
                    None => {
                        return None;
                    },
                };
                proof {
                    assert(!only_wild(query@)) by {
                        assert(query@[0] != Entry::Wild);
                    }
                }
                let out = self.rebuild(&ctor, arity, found);
                proof {
                    if flat || lone {
                        let q = old(self).head_spec(query@[0], column);
                        assert(q == HeadView::Ctor(ctor_view(ctor)));
                        assert(mid.spent < BUDGET);
                        assert(found@.len() == (if specialised@.len() == 0 { 1int } else { 0int }));
                        assert forall|i: int| 0 <= i < matrix@.len() implies #[trigger] old(self).head_spec(matrix@[i]@[0], column)
                            == mid.head_spec(matrix@[i]@[0], column) by {}
                        assert(no_or_heads(mid, matrix@, column));
                        assert((specialised@.len() == 0) == (forall|i: int|
                            0 <= i < matrix@.len() ==> !covers(#[trigger] mid.head_spec(matrix@[i]@[0], column), q)));
                        assert forall|i: int| 0 <= i < matrix@.len() implies #[trigger] old(self).head_spec(matrix@[i]@[0], column)
                            == self.head_spec(matrix@[i]@[0], column) by {}
                        if out@.len() > 0 {
                            assert forall|i: int| 0 <= i < matrix@.len() implies !covers(
                                #[trigger] old(self).head_spec(matrix@[i]@[0], column),
                                q,
                            ) by {
                                assert(!covers(mid.head_spec(matrix@[i]@[0], column), q));
                            }
                        } else {
                            let i = choose|i: int|
                                0 <= i < matrix@.len() && covers(#[trigger] mid.head_spec(matrix@[i]@[0], column), q);
                            assert(covers(old(self).head_spec(matrix@[i]@[0], column), q));
                        }
                    }
                }
                Some(out)
            },
            Head::Wild => {
                proof {
                    assert(self.ctor_set_spec(column) == old(self).ctor_set_spec(column));
                    if flat {
                        assert(flat_column(*self, column));
                        assert forall|i: int| 0 <= i < matrix@.len() implies !(#[trigger] self.head_spec(matrix@[i]@[0], column) is Or) by {
                            assert(self.head_spec(matrix@[i]@[0], column) == old(self).head_spec(matrix@[i]@[0], column));
                        }
                    }
                }
                let ghost mid = *self;
                proof {
                    lemma_same_heads(mid, *old(self), matrix@, column);
                    if fin {
                        assert(nullary_column(mid, column));
                        if names_some_ctor(*old(self), matrix@, column) {
                            let i = choose|i: int|
                                0 <= i < matrix@.len() && (#[trigger] old(self).head_spec(matrix@[i]@[0], column) is Ctor);
                            assert(mid.head_spec(matrix@[i]@[0], column) == old(self).head_spec(matrix@[i]@[0], column));
                            assert(names_some_ctor(mid, matrix@, column));
                        }
                    }
                }
                let r = self.wildcard(matrix, query, cols, column);
                proof {
                    if fin && names_some_ctor(*old(self), matrix@, column) && r is Some {
                        lemma_same_heads(mid, *old(self), matrix@, column);
                        let ws = r->0;
                        let cs = old(self).ctor_set_spec(column)->0;
                        assert forall|j: int| 0 <= j < ws@.len() implies (#[trigger] ws@[j])@.len() == 1 && names_missing(
                            *old(self),
                            matrix@,
                            column,
                            witness_view(ws@[j]@[0]),
                        ) by {
                            assert(names_missing(mid, matrix@, column, witness_view(ws@[j]@[0])));
                            let k = choose|k: int|
                                0 <= k < cs.len() && #[trigger] uncovered(mid, matrix@, column, cs[k]) && witness_view(ws@[j]@[0])
                                    == assembled(*mid.decls, cs[k], wildcards(0));
                            assert(uncovered(*old(self), matrix@, column, cs[k]));
                        }
                    }
                }
                proof {
                    if fin {
                        lemma_same_heads(mid, *old(self), matrix@, column);
                        let cs = old(self).ctor_set_spec(column)->0;
                        assert(mid.ctor_set_spec(column)->0 == cs);
                        let ws = r->0;
                        if ws@.len() > 0 {
                            let k = choose|k: int| 0 <= k < cs.len() && #[trigger] uncovered(mid, matrix@, column, cs[k]);
                            assert(uncovered(*old(self), matrix@, column, cs[k]));
                        } else {
                            assert forall|k: int| 0 <= k < cs.len() implies !#[trigger] uncovered(*old(self), matrix@, column, cs[k]) by {
                                assert(!uncovered(mid, matrix@, column, cs[k]));
                            }
                        }
                    }
                    if flat {
                        let q = old(self).head_spec(query@[0], column);
                        assert(q == HeadView::Wild);
                        let ws = r->0;
                        if ws@.len() > 0 {
                            assert forall|i: int| 0 <= i < matrix@.len() implies !covers(
                                #[trigger] old(self).head_spec(matrix@[i]@[0], column),
                                q,
                            ) by {
                                assert(!(mid.head_spec(matrix@[i]@[0], column) is Wild));
                                assert(mid.head_spec(matrix@[i]@[0], column) == old(self).head_spec(matrix@[i]@[0], column));
                            }
                        } else {
                            let i = choose|i: int|
                                0 <= i < matrix@.len() && (#[trigger] mid.head_spec(matrix@[i]@[0], column) is Wild);
                            assert(mid.head_spec(matrix@[i]@[0], column) == old(self).head_spec(matrix@[i]@[0], column));
                            assert(covers(old(self).head_spec(matrix@[i]@[0], column), q));
                        }
                    }
                }
                r
            },
        }
    }

    /// The wildcard case, which is where the constructor set is consulted
    /// and so where every witness comes from.
    fn wildcard(&mut self, matrix: &Vec<Vec<Entry>>, query: &Vec<Entry>, cols: &Vec<Ty>, column: Ty) -> (r: Option<
        Vec<Vec<Witness>>,
    >)
        requires
            old(self).wf(),
            old(self).spent <= BUDGET,
            cols@.len() >= 1,
            column == cols@[0],
            old(self).types.valid(column),
            query@.len() == cols@.len(),
            row_ok(old(self).pats@, query@),
            matrix_ok(old(self).pats@, matrix@, cols@.len() as int),
        ensures
            same_tables(*final(self), *old(self)),
            old(self).spent <= final(self).spent <= BUDGET + 1,
            r is Some ==> final(self).spent <= BUDGET,
            r matches Some(ws) ==> rows_len(ws@, cols@.len() as int),
            r matches Some(ws) ==> (only_wild(query@) ==> rows_lit_free(ws@)),
            has_wild_row(old(self).pats@, matrix@) ==> (r is None || r->0@.len() == 0),
            named_all(old(self).pats@, old(self).types@, old(self).aliases@, old(self).defs@, *old(self).decls, matrix@, column) ==> (r is None || r->0@.len() == 0),
            matrix@.len() == 0 && cols@.len() == 1 && old(self).spent < BUDGET && old(self).ctor_set_spec(column) != Some(
                Seq::<CtorView>::empty(),
            ) ==> (r matches Some(ws) && ws@.len() >= 1),
            cols@.len() == 1 && flat_column(*old(self), column) && no_or_heads(*old(self), matrix@, column)
                && old(self).spent < BUDGET ==> {
                &&& final(self).spent == old(self).spent + 1
                &&& r matches Some(ws)
                &&& (ws@.len() > 0 <==> forall|i: int|
                    0 <= i < matrix@.len() ==> !(#[trigger] old(self).head_spec(matrix@[i]@[0], column) is Wild))
                &&& ws@.len() > 0 ==> ws@.len() == 1 && ws@[0]@ == seq![Witness::Wildcard]
            },
            cols@.len() == 1 && nullary_column(*old(self), column) && no_or_heads(*old(self), matrix@, column)
                && old(self).spent + old(self).ctor_set_spec(column)->0.len() + 1 <= BUDGET ==> {
                &&& final(self).spent <= old(self).spent + old(self).ctor_set_spec(column)->0.len() + 1
                &&& r matches Some(ws)
                &&& (ws@.len() > 0 <==> exists|k: int|
                    0 <= k < old(self).ctor_set_spec(column)->0.len() && #[trigger] uncovered(
                        *old(self),
                        matrix@,
                        column,
                        old(self).ctor_set_spec(column)->0[k],
                    ))
            },
            cols@.len() == 1 && nullary_column(*old(self), column) && no_or_heads(*old(self), matrix@, column)
                && old(self).spent + old(self).ctor_set_spec(column)->0.len() + 1 <= BUDGET && names_some_ctor(
                *old(self),
                matrix@,
                column,
            ) ==> (r matches Some(ws) ==> forall|j: int|
                0 <= j < ws@.len() ==> (#[trigger] ws@[j])@.len() == 1 && names_missing(
                    *old(self),
                    matrix@,
                    column,
                    witness_view(ws@[j]@[0]),
                )),
        decreases BUDGET + 1 - old(self).spent, 0int,
    {
        proof {
            assert(matrix_ok(self.pats@, matrix@, cols@.len() as int));
        }
        let used = self.heads_of(matrix, column);
        let all = self.ctor_set(column);
        let ghost fin = cols@.len() == 1 && nullary_column(*old(self), column) && no_or_heads(*old(self), matrix@, column)
            && old(self).spent + old(self).ctor_set_spec(column)->0.len() + 1 <= BUDGET;
        let ghost some_uncovered = exists|k: int|
            0 <= k < old(self).ctor_set_spec(column)->0.len() && #[trigger] uncovered(
                *old(self),
                matrix@,
                column,
                old(self).ctor_set_spec(column)->0[k],
            );
        let mut missing: Vec<Ctor> = Vec::new();
        let complete_set = all.is_some();
        if let Some(all) = &all {
            let mut k: usize = 0;
            while k < all.len()
                invariant
                    self.wf(),
                    self.types.valid(column),
                    k <= all@.len(),
                    self.ctor_set_spec(column) == Some(ctor_views(all@)),
                    forall|i: int|
                        0 <= i < matrix@.len() ==> (self.head_spec(#[trigger] matrix@[i]@[0], column) matches HeadView::Ctor(
                            c,
                        ) ==> ctor_views(used@).contains(c)),
                    forall|j: int| 0 <= j < missing@.len() ==> !(#[trigger] ctor_view(missing@[j]) is Lit),
                    named_all(self.pats@, self.types@, self.aliases@, self.defs@, *self.decls, matrix@, column) ==> missing@.len() == 0,
                    used@.len() == 0 ==> missing@.len() == k,
                    missing@.len() == 0 <==> forall|j: int|
                        0 <= j < k ==> ctor_views(used@).contains(#[trigger] ctor_view(all@[j])),
                    forall|j: int|
                        #![trigger missing@[j]]
                        0 <= j < missing@.len() ==> exists|q: int|
                            #![trigger all@[q]]
                            0 <= q < all@.len() && ctor_view(missing@[j]) == ctor_view(all@[q]) && !ctor_views(
                                used@,
                            ).contains(ctor_view(all@[q])),
                decreases all@.len() - k,
            {
                proof {
                    lemma_set_has_no_literal(self.types@, self.aliases@, self.defs@, *self.decls, column.0 as int, k as int);
                    assert(ctor_views(all@)[k as int] == ctor_view(all@[k as int]));
                    if named_all(self.pats@, self.types@, self.aliases@, self.defs@, *self.decls, matrix@, column) {
                        let i = choose|i: int|
                            0 <= i < matrix@.len() && #[trigger] row_names(
                                self.pats@,
                                self.types@,
                                self.aliases@,
                                matrix@[i]@,
                                self.ctor_set_spec(column)->0[k as int],
                                column.0 as int,
                            );
                        assert(self.head_spec(matrix@[i]@[0], column) == HeadView::Ctor(ctor_view(all@[k as int])));
                    }
                }
                if !contains_ctor(&used, &all[k]) {
                    let ghost before = missing@;
                    missing.push(copy_ctor(&all[k]));
                    proof {
                        assert forall|j: int|
                            #![trigger missing@[j]]
                            0 <= j < missing@.len() implies exists|q: int|
                                #![trigger all@[q]]
                                0 <= q < all@.len() && ctor_view(missing@[j]) == ctor_view(all@[q]) && !ctor_views(
                                    used@,
                                ).contains(ctor_view(all@[q])) by {
                            if j < before.len() {
                                assert(missing@[j] == before[j]);
                            } else {
                                assert(ctor_view(missing@[j]) == ctor_view(all@[k as int]));
                            }
                        }
                    }
                }
                k = k + 1;
            }
        }

        if let Some(all) = &all {
            if missing.len() == 0 {
                proof {
                    if used@.len() == 0 && matrix@.len() == 0 {
                        assert(missing@.len() == all@.len());
                        assert(ctor_views(all@) =~= Seq::<CtorView>::empty());
                        assert(self.ctor_set_spec(column) == Some(Seq::<CtorView>::empty()));
                        assert(old(self).ctor_set_spec(column) == Some(Seq::<CtorView>::empty()));
                    }
                }
                let mut found: Vec<Vec<Witness>> = Vec::new();
                let mut k: usize = 0;
                while k < all.len()
                    invariant_except_break
                        fin ==> self.spent <= old(self).spent + k,
                        fin ==> (found@.len() > 0 <==> exists|j: int|
                            0 <= j < k && #[trigger] uncovered(*old(self), matrix@, column, ctor_view(all@[j]))),
                    invariant
                        self.wf(),
                        same_tables(*self, *old(self)),
                        old(self).spent <= self.spent <= BUDGET,
                        self.types.valid(column),
                        cols@.len() >= 1,
                        column == cols@[0],
                        query@.len() == cols@.len(),
                        row_ok(self.pats@, query@),
                        matrix_ok(self.pats@, matrix@, cols@.len() as int),
                        k <= all@.len(),
                        self.ctor_set_spec(column) == Some(ctor_views(all@)),
                        rows_len(found@, cols@.len() as int),
                        only_wild(query@) ==> rows_lit_free(found@),
                        has_wild_row(self.pats@, matrix@) ==> found@.len() == 0,
                        named_all(old(self).pats@, old(self).types@, old(self).aliases@, old(self).defs@, *old(self).decls, matrix@, column) ==> found@.len() == 0,
                        !(matrix@.len() == 0 && old(self).ctor_set_spec(column) != Some(Seq::<CtorView>::empty())),
                        fin == (cols@.len() == 1 && nullary_column(*old(self), column) && no_or_heads(*old(self), matrix@, column)
                            && old(self).spent + old(self).ctor_set_spec(column)->0.len() + 1 <= BUDGET),
                    ensures
                        fin ==> self.spent <= old(self).spent + all@.len(),
                        fin ==> (found@.len() > 0 <==> exists|j: int|
                            0 <= j < all@.len() && #[trigger] uncovered(*old(self), matrix@, column, ctor_view(all@[j]))),
                        self.wf(),
                        same_tables(*self, *old(self)),
                        old(self).spent <= self.spent <= BUDGET,
                        rows_len(found@, cols@.len() as int),
                        only_wild(query@) ==> rows_lit_free(found@),
                        has_wild_row(self.pats@, matrix@) ==> found@.len() == 0,
                        named_all(old(self).pats@, old(self).types@, old(self).aliases@, old(self).defs@, *old(self).decls, matrix@, column) ==> found@.len() == 0,
                    decreases all@.len() - k,
                {
                    let ctor = &all[k];
                    proof {
                        lemma_set_has_no_literal(self.types@, self.aliases@, self.defs@, *self.decls, column.0 as int, k as int);
                        assert(ctor_views(all@)[k as int] == ctor_view(*ctor));
                        assert(matrix_ok(self.pats@, matrix@, cols@.len() as int));
                    }
                    let fields = self.field_tys(ctor, column, matrix, query);
                    let arity = fields.len();
                    let ghost mid = *self;
                    let specialised = self.specialise(matrix, ctor, column, arity);
                    let mut row = wild_row(arity);
                    let ghost head_cells = row@;
                    push_tail(&mut row, query, 1);
                    let mut tys = fields;
                    push_tys(&mut tys, cols, 1);
                    proof {
                        assert forall|i: int| 0 <= i < row@.len() implies entry_ok(self.pats@, #[trigger] row@[i]) by {
                            if i >= arity {
                                assert(row@[i] == query@[i - arity + 1]);
                            } else {
                                assert(row@[i] == head_cells[i]);
                            }
                        }
                        if only_wild(query@) {
                            assert forall|i: int| 0 <= i < row@.len() implies #[trigger] row@[i] == Entry::Wild by {
                                if i >= arity {
                                    assert(row@[i] == query@[i - arity + 1]);
                                } else {
                                    assert(row@[i] == head_cells[i]);
                                }
                            }
                        }
                        if named_all(old(self).pats@, old(self).types@, old(self).aliases@, old(self).defs@, *old(self).decls, matrix@, column) {
                            let i = choose|i: int|
                                0 <= i < matrix@.len() && #[trigger] row_names(
                                    self.pats@,
                                    self.types@,
                                    self.aliases@,
                                    matrix@[i]@,
                                    self.ctor_set_spec(column)->0[k as int],
                                    column.0 as int,
                                );
                            assert(row_names(self.pats@, self.types@, self.aliases@, matrix@[i]@, ctor_view(*ctor), column.0 as int));
                        }
                    }
                    proof {
                        if fin {
                            assert(old(self).ctor_set_spec(column)->0[k as int] == ctor_view(*ctor));
                            assert(arity == 0);
                            assert(tys@.len() == 0);
                            assert forall|i: int| 0 <= i < matrix@.len() implies #[trigger] mid.head_spec(matrix@[i]@[0], column)
                                == old(self).head_spec(matrix@[i]@[0], column) by {}
                            assert(no_or_heads(mid, matrix@, column));
                        }
                    }
                    let deeper = match self.useful(&specialised, &row, &tys) {
                        Some(d) => d,
                        None => {
                            return None;
                        },
                    };
                    let mut rebuilt = self.rebuild(ctor, arity, deeper);
                    let ghost before = found@;
                    let ghost added = rebuilt@;
                    found.append(&mut rebuilt);
                    proof {
                        if fin {
                            let cv = ctor_view(*ctor);
                            assert(added.len() == (if specialised@.len() == 0 { 1int } else { 0int }));
                            if specialised@.len() == 0 {
                                assert forall|i: int| 0 <= i < matrix@.len() implies !covers(
                                    #[trigger] old(self).head_spec(matrix@[i]@[0], column),
                                    HeadView::Ctor(cv),
                                ) by {
                                    assert(!covers(mid.head_spec(matrix@[i]@[0], column), HeadView::Ctor(cv)));
                                }
                                assert(uncovered(*old(self), matrix@, column, ctor_view(all@[k as int])));
                            } else {
                                let i = choose|i: int|
                                    0 <= i < matrix@.len() && covers(#[trigger] mid.head_spec(matrix@[i]@[0], column), HeadView::Ctor(cv));
                                assert(covers(old(self).head_spec(matrix@[i]@[0], column), HeadView::Ctor(cv)));
                                assert(!uncovered(*old(self), matrix@, column, ctor_view(all@[k as int])));
                            }
                            assert((found@.len() > 0) == (exists|j: int|
                                0 <= j < k + 1 && #[trigger] uncovered(*old(self), matrix@, column, ctor_view(all@[j]))));
                        }
                        assert forall|j: int| 0 <= j < found@.len() implies (#[trigger] found@[j])@.len() == cols@.len() by {
                            if j >= before.len() {
                                assert(found@[j] == added[j - before.len()]);
                            }
                        }
                        if only_wild(query@) {
                            assert forall|j: int, m: int| 0 <= j < found@.len() && 0 <= m < found@[j]@.len() implies lit_free(
                                #[trigger] found@[j]@[m],
                            ) by {
                                if j >= before.len() {
                                    assert(found@[j] == added[j - before.len()]);
                                } else {
                                    assert(found@[j] == before[j]);
                                }
                            }
                        }
                    }
                    if found.len() >= SHOWN * 2 {
                        break;
                    }
                    k = k + 1;
                }
                proof {
                    if fin {
                        let cs = old(self).ctor_set_spec(column)->0;
                        assert(cs == ctor_views(all@));
                        assert forall|q: int| 0 <= q < cs.len() implies !#[trigger] uncovered(*old(self), matrix@, column, cs[q]) by {
                            assert(cs[q] == ctor_view(all@[q]));
                            assert(ctor_views(used@).contains(ctor_view(all@[q])));
                            let i = choose|i: int|
                                0 <= i < matrix@.len() && old(self).head_spec(#[trigger] matrix@[i]@[0], column) == HeadView::Ctor(cs[q]);
                            assert(covers(old(self).head_spec(matrix@[i]@[0], column), HeadView::Ctor(cs[q])));
                        }
                        if found@.len() > 0 {
                            let j = choose|j: int|
                                0 <= j < all@.len() && #[trigger] uncovered(*old(self), matrix@, column, ctor_view(all@[j]));
                            assert(cs[j] == ctor_view(all@[j]));
                            assert(uncovered(*old(self), matrix@, column, cs[j]));
                        } else {
                            assert forall|j: int| 0 <= j < cs.len() implies !#[trigger] uncovered(*old(self), matrix@, column, cs[j]) by {
                                assert(cs[j] == ctor_view(all@[j]));
                                assert(!uncovered(*old(self), matrix@, column, ctor_view(all@[j])));
                            }
                        }
                    }
                }
                return Some(found);
            }
        }

        // Incomplete: the default matrix answers the rest of the row, and the
        // constructors nobody named go in front of that answer.
        let default = self.default(matrix, column);
        let mut rest_query: Vec<Entry> = Vec::new();
        push_tail(&mut rest_query, query, 1);
        let mut rest_cols: Vec<Ty> = Vec::new();
        push_tys(&mut rest_cols, cols, 1);
        proof {
            assert forall|i: int| 0 <= i < rest_query@.len() implies entry_ok(self.pats@, #[trigger] rest_query@[i]) by {
                assert(rest_query@[i] == query@[i + 1]);
            }
            if only_wild(query@) {
                assert forall|i: int| 0 <= i < rest_query@.len() implies #[trigger] rest_query@[i] == Entry::Wild by {
                    assert(rest_query@[i] == query@[i + 1]);
                }
            }
        }
        let ghost flat = cols@.len() == 1 && flat_column(*old(self), column) && no_or_heads(*old(self), matrix@, column)
            && old(self).spent < BUDGET;
        proof {
            if flat {
                assert(rest_cols@.len() == 0);
                assert(!complete_set);
            }
            if fin {
                assert(rest_cols@.len() == 0);
                assert(all is Some);
                assert(missing@.len() > 0);
            }
        }
        let rest = match self.useful(&default, &rest_query, &rest_cols) {
            Some(r) => r,
            None => {
                return None;
            },
        };
        if rest.len() == 0 {
            proof {
                if fin {
                    assert(default@.len() > 0);
                    let i = choose|i: int| 0 <= i < matrix@.len() && (#[trigger] old(self).head_spec(matrix@[i]@[0], column) is Wild);
                    assert forall|k: int| 0 <= k < old(self).ctor_set_spec(column)->0.len() implies !#[trigger] uncovered(
                        *old(self),
                        matrix@,
                        column,
                        old(self).ctor_set_spec(column)->0[k],
                    ) by {
                        assert(covers(old(self).head_spec(matrix@[i]@[0], column), HeadView::Ctor(old(self).ctor_set_spec(column)->0[k])));
                    }
                }
            }
            return Some(Vec::new());
        }
        let ghost nothing_named = used@.len() == 0;
        let ghost none_wild = forall|i: int|
            0 <= i < matrix@.len() ==> !(#[trigger] old(self).head_spec(matrix@[i]@[0], column) is Wild);
        proof {
            if flat {
                assert(none_wild);
            }
            if fin {
                assert(none_wild);
                let v = all->0;
                assert(old(self).ctor_set_spec(column)->0 == ctor_views(v@));
                let j = choose|j: int| 0 <= j < v@.len() && !ctor_views(used@).contains(#[trigger] ctor_view(v@[j]));
                let cj = ctor_view(v@[j]);
                assert(old(self).ctor_set_spec(column)->0[j] == cj);
                assert forall|i: int| 0 <= i < matrix@.len() implies !covers(
                    #[trigger] old(self).head_spec(matrix@[i]@[0], column),
                    HeadView::Ctor(cj),
                ) by {
                    assert(self.head_spec(matrix@[i]@[0], column) == old(self).head_spec(matrix@[i]@[0], column));
                    assert(!(old(self).head_spec(matrix@[i]@[0], column) is Or));
                }
                assert(uncovered(*old(self), matrix@, column, old(self).ctor_set_spec(column)->0[j]));
                assert(some_uncovered);
            }
            assert(!has_wild_row(self.pats@, matrix@));
            assert(!named_all(old(self).pats@, old(self).types@, old(self).aliases@, old(self).defs@, *old(self).decls, matrix@, column));
        }

        let ghost fin2 = fin && names_some_ctor(*old(self), matrix@, column);
        proof {
            if fin2 {
                let i = choose|i: int| 0 <= i < matrix@.len() && (#[trigger] old(self).head_spec(matrix@[i]@[0], column) is Ctor);
                if let HeadView::Ctor(c0) = old(self).head_spec(matrix@[i]@[0], column) {
                    assert(ctor_views(used@).contains(c0));
                }
                assert(used@.len() > 0);
                assert(complete_set);
                let v = all->0;
                let cs = old(self).ctor_set_spec(column)->0;
                assert(cs == ctor_views(v@));
                assert forall|j: int| 0 <= j < missing@.len() implies arity_of(*old(self).decls, ctor_view(#[trigger] missing@[j])) == 0
                    && names_missing(
                    *old(self),
                    matrix@,
                    column,
                    assembled(*old(self).decls, ctor_view(missing@[j]), wildcards(0)),
                ) by {
                    let q = choose|q: int|
                        0 <= q < v@.len() && ctor_view(missing@[j]) == ctor_view(v@[q]) && !ctor_views(used@).contains(
                            ctor_view(v@[q]),
                        );
                    assert(cs[q] == ctor_view(v@[q]));
                    assert forall|r: int| 0 <= r < matrix@.len() implies !covers(
                        #[trigger] old(self).head_spec(matrix@[r]@[0], column),
                        HeadView::Ctor(cs[q]),
                    ) by {
                        assert(!(old(self).head_spec(matrix@[r]@[0], column) is Or));
                        assert(!(old(self).head_spec(matrix@[r]@[0], column) is Wild));
                    }
                    assert(uncovered(*old(self), matrix@, column, cs[q]));
                }
            }
        }

        // Nothing was named, or the set never runs out: `_` is the honest
        // shape.
        let mut heads: Vec<Witness> = Vec::new();
        if used.len() == 0 || !complete_set {
            heads.push(Witness::Wildcard);
        } else {
            let mut k: usize = 0;
            while k < missing.len()
                invariant
                    self.wf(),
                    k <= missing@.len(),
                    forall|j: int| 0 <= j < missing@.len() ==> !(#[trigger] ctor_view(missing@[j]) is Lit),
                    forall|j: int| 0 <= j < heads@.len() ==> lit_free(#[trigger] heads@[j]),
                    !nothing_named,
                    heads@.len() == k,
                    same_tables(*self, *old(self)),
                    fin2 ==> forall|j: int|
                        0 <= j < missing@.len() ==> arity_of(*old(self).decls, ctor_view(#[trigger] missing@[j])) == 0
                            && names_missing(
                            *old(self),
                            matrix@,
                            column,
                            assembled(*old(self).decls, ctor_view(missing@[j]), wildcards(0)),
                        ),
                    fin2 ==> forall|j: int|
                        0 <= j < heads@.len() ==> names_missing(*old(self), matrix@, column, witness_view(#[trigger] heads@[j])),
                decreases missing@.len() - k,
            {
                proof {
                    assert(!(ctor_view(missing@[k as int]) is Lit));
                }
                let w = self.witness_of(&missing[k]);
                let ghost before = heads@;
                heads.push(w);
                proof {
                    if fin2 {
                        assert(arity_of(*old(self).decls, ctor_view(missing@[k as int])) == 0);
                        assert forall|j: int| 0 <= j < heads@.len() implies names_missing(
                            *old(self),
                            matrix@,
                            column,
                            witness_view(#[trigger] heads@[j]),
                        ) by {
                            if j < before.len() {
                                assert(heads@[j] == before[j]);
                            }
                        }
                    }
                }
                k = k + 1;
            }
        }

        let mut found: Vec<Vec<Witness>> = Vec::new();
        let mut h: usize = 0;
        while h < heads.len()
            invariant
                fin2 == (fin && names_some_ctor(*old(self), matrix@, column)),
                fin2 ==> forall|j: int|
                    0 <= j < heads@.len() ==> names_missing(*old(self), matrix@, column, witness_view(#[trigger] heads@[j])),
                fin2 ==> forall|j: int|
                    0 <= j < found@.len() ==> (#[trigger] found@[j])@.len() == 1 && names_missing(
                        *old(self),
                        matrix@,
                        column,
                        witness_view(found@[j]@[0]),
                    ),
                fin == (cols@.len() == 1 && nullary_column(*old(self), column) && no_or_heads(*old(self), matrix@, column)
                    && old(self).spent + old(self).ctor_set_spec(column)->0.len() + 1 <= BUDGET),
                some_uncovered == exists|k: int|
                    0 <= k < old(self).ctor_set_spec(column)->0.len() && #[trigger] uncovered(
                        *old(self),
                        matrix@,
                        column,
                        old(self).ctor_set_spec(column)->0[k],
                    ),
                fin ==> self.spent == old(self).spent + 1 && some_uncovered && heads@.len() >= 1,
                flat == (cols@.len() == 1 && flat_column(*old(self), column) && no_or_heads(*old(self), matrix@, column)
                    && old(self).spent < BUDGET),
                none_wild == forall|i: int|
                    0 <= i < matrix@.len() ==> !(#[trigger] old(self).head_spec(matrix@[i]@[0], column) is Wild),
                flat ==> heads@ == seq![Witness::Wildcard] && rest@.len() == 1 && rest@[0]@.len() == 0
                    && self.spent == old(self).spent + 1 && none_wild,
                flat && h == 0 ==> found@.len() == 0,
                flat && h >= 1 ==> found@.len() == 1 && found@[0]@ == seq![Witness::Wildcard],
                nothing_named ==> heads@.len() == 1,
                rest@.len() >= 1,
                h > 0 ==> found@.len() >= 1,
                same_tables(*self, *old(self)),
                old(self).spent <= self.spent <= BUDGET,
                !has_wild_row(old(self).pats@, matrix@),
                !named_all(old(self).pats@, old(self).types@, old(self).aliases@, old(self).defs@, *old(self).decls, matrix@, column),
                h <= heads@.len(),
                rows_len(rest@, cols@.len() - 1),
                only_wild(query@) ==> rows_lit_free(rest@),
                forall|j: int| 0 <= j < heads@.len() ==> lit_free(#[trigger] heads@[j]),
                rows_len(found@, cols@.len() as int),
                only_wild(query@) ==> rows_lit_free(found@),
            decreases heads@.len() - h,
        {
            let mut t: usize = 0;
            while t < rest.len()
                invariant
                    h < heads@.len(),
                    fin2 == (fin && names_some_ctor(*old(self), matrix@, column)),
                    fin2 ==> forall|j: int|
                        0 <= j < heads@.len() ==> names_missing(*old(self), matrix@, column, witness_view(#[trigger] heads@[j])),
                    fin2 ==> forall|j: int|
                        0 <= j < found@.len() ==> (#[trigger] found@[j])@.len() == 1 && names_missing(
                            *old(self),
                            matrix@,
                            column,
                            witness_view(found@[j]@[0]),
                        ),
                    fin == (cols@.len() == 1 && nullary_column(*old(self), column) && no_or_heads(*old(self), matrix@, column)
                        && old(self).spent + old(self).ctor_set_spec(column)->0.len() + 1 <= BUDGET),
                    some_uncovered == exists|k: int|
                        0 <= k < old(self).ctor_set_spec(column)->0.len() && #[trigger] uncovered(
                            *old(self),
                            matrix@,
                            column,
                            old(self).ctor_set_spec(column)->0[k],
                        ),
                    fin ==> self.spent == old(self).spent + 1 && some_uncovered && heads@.len() >= 1,
                    flat == (cols@.len() == 1 && flat_column(*old(self), column) && no_or_heads(*old(self), matrix@, column)
                        && old(self).spent < BUDGET),
                    none_wild == forall|i: int|
                        0 <= i < matrix@.len() ==> !(#[trigger] old(self).head_spec(matrix@[i]@[0], column) is Wild),
                    flat ==> heads@ == seq![Witness::Wildcard] && rest@.len() == 1 && rest@[0]@.len() == 0
                        && self.spent == old(self).spent + 1 && h == 0 && none_wild,
                    flat && t == 0 ==> found@.len() == 0,
                    flat && t >= 1 ==> found@.len() == 1 && found@[0]@ == seq![Witness::Wildcard],
                    same_tables(*self, *old(self)),
                    old(self).spent <= self.spent <= BUDGET,
                    !has_wild_row(old(self).pats@, matrix@),
                    !named_all(old(self).pats@, old(self).types@, old(self).aliases@, old(self).defs@, *old(self).decls, matrix@, column),
                    h < heads@.len(),
                    t <= rest@.len(),
                    rest@.len() >= 1,
                    h > 0 || t > 0 ==> found@.len() >= 1,
                    rows_len(rest@, cols@.len() - 1),
                    only_wild(query@) ==> rows_lit_free(rest@),
                    forall|j: int| 0 <= j < heads@.len() ==> lit_free(#[trigger] heads@[j]),
                    rows_len(found@, cols@.len() as int),
                    only_wild(query@) ==> rows_lit_free(found@),
                decreases rest@.len() - t,
            {
                proof {
                    if only_wild(query@) {
                        assert forall|j: int| 0 <= j < rest@[t as int]@.len() implies lit_free(#[trigger] rest@[t as int]@[j]) by {
                        }
                    }
                }
                let mut row = copy_row(&rest[t]);
                let ghost tail = row@;
                let head = copy_witness(&heads[h]);
                proof {
                    if flat {
                        assert(witness_view(head) == witness_view(Witness::Wildcard));
                        assert(head == Witness::Wildcard);
                        assert(row@.len() == 0);
                    }
                }
                row.push(head);
                let ghost before = found@;
                found.push(row);
                proof {
                    if fin2 {
                        assert(rest@[t as int]@.len() == 0);
                        assert(found@[before.len() as int]@.len() == 1);
                        assert(witness_view(found@[before.len() as int]@[0]) == witness_view(heads@[h as int]));
                        assert forall|j: int| 0 <= j < found@.len() implies (#[trigger] found@[j])@.len() == 1 && names_missing(
                            *old(self),
                            matrix@,
                            column,
                            witness_view(found@[j]@[0]),
                        ) by {
                            if j < before.len() {
                                assert(found@[j] == before[j]);
                            }
                        }
                    }
                    if flat {
                        assert(before.len() == 0);
                        assert(found@.len() == 1);
                        assert(found@[0]@ =~= seq![Witness::Wildcard]);
                    }
                    assert(found@[before.len() as int]@.len() == cols@.len());
                    if only_wild(query@) {
                        assert forall|j: int, m: int| 0 <= j < found@.len() && 0 <= m < found@[j]@.len() implies lit_free(
                            #[trigger] found@[j]@[m],
                        ) by {
                            if j < before.len() {
                                assert(found@[j] == before[j]);
                            } else if m < tail.len() {
                                assert(found@[j]@[m] == tail[m]);
                            }
                        }
                    }
                }
                if found.len() >= SHOWN * 2 {
                    proof {
                        assert(!flat);
                    }
                    return Some(found);
                }
                t = t + 1;
            }
            h = h + 1;
        }
        Some(found)
    }
}


// ---------------------------------------------------------------------------
// One `match`
// ---------------------------------------------------------------------------

/// Whether pattern `id`, or a pattern under it, did not resolve or carries
/// a type that is already a hole: the arm it is in may have covered
/// anything, so the `match` is not judged at all.
pub open spec fn unanswerable(pats: Seq<Pat>, kinds: Seq<KindView>, id: int) -> bool
    decreases id + 1, 0int,
{
    if 0 <= id < pats.len() {
        let kind = pats[id].kind;
        ||| mentions_error(kinds, pats[id].ty.0 as int)
        ||| kind is Error
        ||| kind matches PatKind::Variant { def: None, .. }
        ||| kind matches PatKind::Record { def: None, .. }
        ||| any_unanswerable(pats, kinds, sub_patterns(kind), 0, id)
    } else {
        false
    }
}

/// Whether one of `subs[i..]`, each below `bound`, is unanswerable.
pub open spec fn any_unanswerable(pats: Seq<Pat>, kinds: Seq<KindView>, subs: Seq<usize>, i: int, bound: int) -> bool
    decreases bound, subs.len() - i,
{
    if i < 0 || i >= subs.len() {
        false
    } else if subs[i] < bound && unanswerable(pats, kinds, subs[i] as int) {
        true
    } else {
        any_unanswerable(pats, kinds, subs, i + 1, bound)
    }
}

/// One `match` of a body: its scrutinee's type as the checker wrote it on
/// the node and as the reader writes it, where the scrutinee is, and each
/// arm's pattern in order.
#[derive(Debug)]
pub struct MatchExpr {
    pub scrutinee_ty: Ty,
    pub ty_text: String,
    pub span: Span,
    pub arms: Vec<usize>,
}

/// Some report is the one for an arm no value reaches, at `span`.
pub open spec fn reports_dead_arm(out: Seq<Diagnostic>, span: Span) -> bool {
    exists|i: int| 0 <= i < out.len() && #[trigger] out[i]@ == unreachable_arm_view(span)
}

/// Some report says the `match` is not exhaustive.
pub open spec fn reports_missing(out: Seq<Diagnostic>) -> bool {
    exists|i: int| 0 <= i < out.len() && (#[trigger] out[i]@).code == NON_EXHAUSTIVE_MATCH
}

/// Every constructor of the scrutinee's type is named by some arm with
/// catch-alls under it. A `T?` is not covered by this: its present half is
/// the patterns of `T` themselves.
pub open spec fn names_every_constructor(
    pats: Seq<Pat>,
    kinds: Seq<KindView>,
    aliases: Map<DefId, Ty>,
    defs: Seq<Definition>,
    decls: Declarations,
    arms: Seq<usize>,
    scrutinee: Ty,
) -> bool {
    let c = classified(kinds, aliases, scrutinee.0 as int);
    &&& c is Some
    &&& ctor_set(kinds, aliases, defs, decls, c->0) is Some
    &&& forall|k: int|
        #![trigger ctor_set(kinds, aliases, defs, decls, c->0)->0[k]]
        0 <= k < ctor_set(kinds, aliases, defs, decls, c->0)->0.len() ==> exists|i: int|
            0 <= i < arms.len() && #[trigger] names_with_wildcards(
                pats,
                kinds,
                aliases,
                arms[i] as int,
                ctor_set(kinds, aliases, defs, decls, c->0)->0[k],
                c->0,
            )
}

/// The name of a definition, or nothing when the table lacks it.
fn name_of(defs: &[Definition], def: DefId) -> (name: String)
    ensures
        name@ == def_name(defs@, def),
{
    match find_definition(defs, def) {
        Some(d) => {
            let mut name = String::new();
            push_str(&mut name, d.name.as_str());
            name
        },
        None => String::new(),
    }
}

/// A witness as the author would type it: `_`, `null`, `true`, `false`,
/// `()`, a tuple in parentheses, a variant by its name with its payload in
/// parentheses when it has one, a record by its name with each field named.
/// A literal is never rendered.
spec fn witness_text(defs: Seq<Definition>, w: Witness) -> Seq<char>
    decreases w, 0int,
{
    match w {
        Witness::Wildcard => "_"@,
        Witness::Null => "null"@,
        Witness::Bool(b) => if b {
            "true"@
        } else {
            "false"@
        },
        Witness::Lit(_) => seq![],
        Witness::Unit => "()"@,
        Witness::Tuple(elems) => "("@ + list_text(defs, elems, elems@.len() as int) + ")"@,
        Witness::Variant(d, elems) => if elems@.len() == 0 {
            def_name(defs, d)
        } else {
            def_name(defs, d) + "("@ + list_text(defs, elems, elems@.len() as int) + ")"@
        },
        Witness::Record(d, fs) => def_name(defs, d) + "("@ + fields_text(defs, fs, fs@.len() as int) + ")"@,
    }
}

/// The first `n` witnesses of a list rendered and joined with `, `.
spec fn list_text(defs: Seq<Definition>, ws: Vec<Witness>, n: int) -> Seq<char>
    decreases ws, n,
{
    if n <= 0 || n > ws@.len() {
        seq![]
    } else {
        proof {
            assert(decreases_to!(ws => ws@[n - 1]));
        }
        if n == 1 {
            witness_text(defs, ws@[0])
        } else {
            list_text(defs, ws, n - 1) + ", "@ + witness_text(defs, ws@[n - 1])
        }
    }
}

/// The first `n` fields of a record witness, each as `name: witness`,
/// joined with `, `.
spec fn fields_text(defs: Seq<Definition>, fs: Vec<(DefId, Witness)>, n: int) -> Seq<char>
    decreases fs, n,
{
    if n <= 0 || n > fs@.len() {
        seq![]
    } else {
        proof {
            assert(decreases_to!(fs => fs@[n - 1].1));
        }
        let field = def_name(defs, fs@[n - 1].0) + ": "@ + witness_text(defs, fs@[n - 1].1);
        if n == 1 {
            field
        } else {
            fields_text(defs, fs, n - 1) + ", "@ + field
        }
    }
}

/// How a constructor with no fields is written when it is named as a
/// value: a boolean as `true` or `false`, a variant by its name, a record
/// by its name and empty parentheses, the unit value and the empty tuple as
/// `()`, and `null` as itself.
pub open spec fn ctor_text(defs: Seq<Definition>, c: CtorView) -> Seq<char> {
    match c {
        CtorView::Null => "null"@,
        CtorView::Present => "_"@,
        CtorView::Bool(b) => if b {
            "true"@
        } else {
            "false"@
        },
        CtorView::Lit(_) => seq![],
        CtorView::Unit => "()"@,
        CtorView::Tuple(_) => "()"@,
        CtorView::Variant(d) => def_name(defs, d),
        CtorView::Record(d) => def_name(defs, d) + "()"@,
    }
}

/// The witness built for a constructor with no fields is written as that
/// constructor.
proof fn lemma_nullary_witness_text(defs: Seq<Definition>, decls: Declarations, w: Witness, c: CtorView)
    requires
        witness_view(w) == assembled(decls, c, wildcards(0)),
        arity_of(decls, c) == 0,
        !(c is Lit),
    ensures
        witness_text(defs, w) == ctor_text(defs, c),
{
    assert(wildcards(0) =~= Seq::<WitnessView>::empty());
    match w {
        Witness::Variant(d, ws) => {
            lemma_list_view(ws, ws@.len() as int);
        },
        Witness::Tuple(ws) => {
            lemma_list_view(ws, ws@.len() as int);
            assert(list_text(defs, ws, 0) == Seq::<char>::empty());
            assert("("@ + Seq::<char>::empty() + ")"@ =~= "()"@) by {
                reveal_strlit("(");
                reveal_strlit(")");
                reveal_strlit("()");
            }
        },
        Witness::Record(d, fs) => {
            lemma_fields_view(fs, fs@.len() as int);
            assert(fs@.len() == 0);
            assert(fields_text(defs, fs, 0) == Seq::<char>::empty());
            assert("("@ + Seq::<char>::empty() + ")"@ =~= "()"@) by {
                reveal_strlit("(");
                reveal_strlit(")");
                reveal_strlit("()");
            }
            assert(def_name(defs, d) + "("@ + Seq::<char>::empty() + ")"@ =~= def_name(defs, d) + "()"@);
        },
        _ => {},
    }
}

impl<'a> Checker<'a> {
    /// Whether a pattern, or one under it, did not resolve or has an
    /// erroneous type.
    fn pattern_is_unanswerable(&self, id: usize) -> (r: bool)
        requires
            self.wf(),
            id < self.pats@.len(),
        ensures
            r == unanswerable(self.pats@, self.types@, id as int),
        decreases id,
    {
        let pats = self.pats;
        let pat = &pats[id];
        if self.types.references_error(pat.ty) {
            return true;
        }
        let subs: &Vec<usize> = match &pat.kind {
            PatKind::Error => {
                return true;
            },
            PatKind::Variant { def: None, .. } | PatKind::Record { def: None, .. } => {
                return true;
            },
            PatKind::Variant { elems, .. } | PatKind::Tuple(elems) | PatKind::Or(elems) => elems,
            PatKind::Record { fields, .. } => {
                let mut k: usize = 0;
                while k < fields.len()
                    invariant
                        self.wf(),
                        pats == self.pats,
                        id < pats@.len(),
                        pat == pats@[id as int],
                        sub_patterns(pat.kind) == fields@.map_values(|f: (DefId, usize)| f.1),
                        !mentions_error(self.types@, pat.ty.0 as int),
                        k <= fields@.len(),
                        any_unanswerable(pats@, self.types@, sub_patterns(pat.kind), 0, id as int)
                            == any_unanswerable(pats@, self.types@, sub_patterns(pat.kind), k as int, id as int),
                    decreases fields@.len() - k,
                {
                    let sub = fields[k].1;
                    proof {
                        assert(sub_patterns(pat.kind)[k as int] == sub);
                        assert(sub < id);
                    }
                    if self.pattern_is_unanswerable(sub) {
                        return true;
                    }
                    k = k + 1;
                }
                return false;
            },
            _ => {
                return false;
            },
        };
        let mut k: usize = 0;
        while k < subs.len()
            invariant
                self.wf(),
                pats == self.pats,
                id < pats@.len(),
                pat == pats@[id as int],
                sub_patterns(pat.kind) == subs@,
                !mentions_error(self.types@, pat.ty.0 as int),
                !(pat.kind is Error),
                !(pat.kind matches PatKind::Variant { def: None, .. }),
                !(pat.kind matches PatKind::Record { def: None, .. }),
                k <= subs@.len(),
                any_unanswerable(pats@, self.types@, sub_patterns(pat.kind), 0, id as int)
                    == any_unanswerable(pats@, self.types@, sub_patterns(pat.kind), k as int, id as int),
            decreases subs@.len() - k,
        {
            let sub = subs[k];
            proof {
                assert(sub_patterns(pat.kind)[k as int] == sub);
                assert(sub < id);
            }
            if self.pattern_is_unanswerable(sub) {
                return true;
            }
            k = k + 1;
        }
        false
    }

    /// A witness as the author would type it.
    fn render(&self, w: &Witness) -> (out: String)
        requires
            lit_free(*w),
        ensures
            out@ == witness_text(self.defs@, *w),
        decreases w, 1int,
    {
        match w {
            Witness::Wildcard => "_".to_string(),
            Witness::Null => "null".to_string(),
            Witness::Bool(true) => "true".to_string(),
            Witness::Bool(false) => "false".to_string(),
            Witness::Lit(_) => {
                // A literal is never missing: literal types have no finite
                // constructor set, so their witnesses are always `_`.
                assert(false);
                String::new()
            },
            Witness::Unit => "()".to_string(),
            Witness::Tuple(elems) => {
                let mut out = String::new();
                push_str(&mut out, "(");
                let inner = self.render_list(elems);
                push_str(&mut out, inner.as_str());
                push_str(&mut out, ")");
                out
            },
            Witness::Variant(def, elems) => {
                let mut out = name_of(self.defs, *def);
                if elems.len() > 0 {
                    push_str(&mut out, "(");
                    let inner = self.render_list(elems);
                    push_str(&mut out, inner.as_str());
                    push_str(&mut out, ")");
                }
                out
            },
            Witness::Record(def, fields) => {
                let mut out = name_of(self.defs, *def);
                push_str(&mut out, "(");
                let inner = self.render_fields(fields);
                push_str(&mut out, inner.as_str());
                push_str(&mut out, ")");
                out
            },
        }
    }

    /// Witnesses rendered and joined with commas.
    fn render_list(&self, ws: &Vec<Witness>) -> (out: String)
        requires
            forall|j: int| 0 <= j < ws@.len() ==> lit_free(#[trigger] ws@[j]),
        ensures
            out@ == list_text(self.defs@, *ws, ws@.len() as int),
        decreases ws, 0int,
    {
        let mut out = String::new();
        let mut k: usize = 0;
        while k < ws.len()
            invariant
                k <= ws@.len(),
                forall|j: int| 0 <= j < ws@.len() ==> lit_free(#[trigger] ws@[j]),
                out@ == list_text(self.defs@, *ws, k as int),
            decreases ws@.len() - k,
        {
            if k > 0 {
                push_str(&mut out, ", ");
            }
            proof {
                assert(decreases_to!(ws => ws@[k as int]));
            }
            let text = self.render(&ws[k]);
            push_str(&mut out, text.as_str());
            k = k + 1;
        }
        out
    }

    /// A record witness's fields, each with its name, joined with commas.
    fn render_fields(&self, fs: &Vec<(DefId, Witness)>) -> (out: String)
        requires
            forall|j: int| 0 <= j < fs@.len() ==> lit_free(#[trigger] fs@[j].1),
        ensures
            out@ == fields_text(self.defs@, *fs, fs@.len() as int),
        decreases fs, 0int,
    {
        let mut out = String::new();
        let mut k: usize = 0;
        while k < fs.len()
            invariant
                k <= fs@.len(),
                forall|j: int| 0 <= j < fs@.len() ==> lit_free(#[trigger] fs@[j].1),
                out@ == fields_text(self.defs@, *fs, k as int),
            decreases fs@.len() - k,
        {
            if k > 0 {
                push_str(&mut out, ", ");
            }
            let name = name_of(self.defs, fs[k].0);
            push_str(&mut out, name.as_str());
            push_str(&mut out, ": ");
            proof {
                assert(decreases_to!(fs => fs@[k as int].1));
            }
            let text = self.render(&fs[k].1);
            push_str(&mut out, text.as_str());
            k = k + 1;
        }
        out
    }
}

// ---------------------------------------------------------------------------
// The two reports
// ---------------------------------------------------------------------------

/// How many of `n` witnesses a message names.
pub open spec fn shown_count(n: int) -> int {
    if n < 3 {
        n
    } else {
        3
    }
}

/// The first three witnesses quoted, then how many more there are.
pub open spec fn witness_list(ws: Seq<Seq<char>>) -> Seq<char> {
    let shown = comma_joined(ws.take(shown_count(ws.len() as int)));
    if ws.len() <= 3 {
        shown
    } else {
        shown + ", and "@ + decimal((ws.len() - 3) as nat) + " more"@
    }
}

/// The report for a `match` that leaves the witnesses `ws` uncovered, over
/// a scrutinee of the type written `ty`.
pub open spec fn not_exhaustive_view(span: Span, ty: Seq<char>, ws: Seq<Seq<char>>) -> DiagnosticView {
    let subject = if ws.len() == 1 {
        "a value"@
    } else {
        "values"@
    };
    let first = if ws.len() > 0 {
        quoted(ws[0])
    } else {
        "`_`"@
    };
    with_note(
        error_view(
            NON_EXHAUSTIVE_MATCH,
            quoted(ty) + " has "@ + subject + " no arm of this `match` covers: "@ + witness_list(ws),
            span,
            "this is "@ + quoted(ty),
        ),
        "a `match` answers for every value or the program has no answer for the rest; write an arm for "@
            + first + " \u{2014} or a `_` arm, which covers everything the arms above leave"@,
    )
}

/// A `match` some values reach no arm of: the witnesses are the message,
/// the first three by name and the rest by count.
pub fn not_exhaustive(span: Span, ty: &str, witnesses: &[String]) -> (d: Diagnostic)
    ensures
        d@ == not_exhaustive_view(span, ty@, views_of(witnesses@)),
{
    let ghost ws = views_of(witnesses@);
    let n = witnesses.len();
    let shown = if n < SHOWN {
        n
    } else {
        SHOWN
    };
    let mut listed = String::new();
    let mut k: usize = 0;
    while k < shown
        invariant
            shown <= n == witnesses@.len(),
            shown as int == shown_count(n as int),
            k <= shown,
            ws == views_of(witnesses@),
            listed@ == comma_joined(ws.take(k as int)),
        decreases shown - k,
    {
        if k > 0 {
            push_str(&mut listed, ", ");
        }
        push_str(&mut listed, "`");
        push_str(&mut listed, witnesses[k].as_str());
        push_str(&mut listed, "`");
        proof {
            assert(ws.take(k + 1).drop_last() =~= ws.take(k as int));
            assert(ws.take(k + 1).last() == witnesses@[k as int]@);
            if k == 0 {
                assert(comma_joined(ws.take(0)) =~= Seq::<char>::empty());
            }
        }
        k = k + 1;
    }
    if n > SHOWN {
        push_str(&mut listed, ", and ");
        push_decimal(&mut listed, n - SHOWN);
        push_str(&mut listed, " more");
    }
    assert(listed@ =~= witness_list(ws));

    let mut message = String::new();
    push_str(&mut message, "`");
    push_str(&mut message, ty);
    push_str(&mut message, "`");
    push_str(&mut message, " has ");
    if n == 1 {
        push_str(&mut message, "a value");
    } else {
        push_str(&mut message, "values");
    }
    push_str(&mut message, " no arm of this `match` covers: ");
    push_str(&mut message, listed.as_str());

    let mut label = String::new();
    push_str(&mut label, "this is ");
    push_str(&mut label, "`");
    push_str(&mut label, ty);
    push_str(&mut label, "`");

    let mut note = String::new();
    push_str(
        &mut note,
        "a `match` answers for every value or the program has no answer for the rest; write an arm for ",
    );
    if n > 0 {
        push_str(&mut note, "`");
        push_str(&mut note, witnesses[0].as_str());
        push_str(&mut note, "`");
    } else {
        push_str(&mut note, "`_`");
    }
    push_str(&mut note, " \u{2014} or a `_` arm, which covers everything the arms above leave");

    let ghost m = message@;
    let ghost l = label@;
    let ghost t = note@;
    proof {
        let first = if ws.len() > 0 {
            quoted(ws[0])
        } else {
            "`_`"@
        };
        assert(t =~= "a `match` answers for every value or the program has no answer for the rest; write an arm for "@
            + first + " \u{2014} or a `_` arm, which covers everything the arms above leave"@);
    }
    let mut d = error_at(NON_EXHAUSTIVE_MATCH, message, span, label);
    add_note(&mut d, note);
    proof {
        let subject = if ws.len() == 1 {
            "a value"@
        } else {
            "values"@
        };
        assert(m =~= quoted(ty@) + " has "@ + subject + " no arm of this `match` covers: "@ + witness_list(ws));
        assert(l =~= "this is "@ + quoted(ty@));
    }
    assert(d@ =~= not_exhaustive_view(span, ty@, ws));
    d
}

/// The report for an arm the arms above it cover.
pub open spec fn unreachable_arm_view(span: Span) -> DiagnosticView {
    with_note(
        error_view(UNREACHABLE_ARM, "no value reaches this arm"@, span, "every value this matches is matched above"@),
        "an arm is checked and lowered whether or not anything reaches it, so a dead one is code that cannot run and cannot be found to be wrong; there is no attribute that silences this, so the fix is to delete the arm or to move it above the one that shadows it"@,
    )
}

/// An arm no value reaches.
pub fn unreachable_arm(span: Span) -> (d: Diagnostic)
    ensures
        d@ == unreachable_arm_view(span),
{
    let mut message = String::new();
    push_str(&mut message, "no value reaches this arm");
    let mut label = String::new();
    push_str(&mut label, "every value this matches is matched above");
    let mut note = String::new();
    push_str(
        &mut note,
        "an arm is checked and lowered whether or not anything reaches it, so a dead one is code that cannot run and cannot be found to be wrong; there is no attribute that silences this, so the fix is to delete the arm or to move it above the one that shadows it",
    );
    let mut d = error_at(UNREACHABLE_ARM, message, span, label);
    add_note(&mut d, note);
    d
}

/// A matrix of one-cell rows, one per arm, names every constructor when the
/// arms do.
#[verifier::spinoff_prover]
proof fn lemma_named_all(
    pats: Seq<Pat>,
    kinds: Seq<KindView>,
    aliases: Map<DefId, Ty>,
    defs: Seq<Definition>,
    decls: Declarations,
    matrix: Seq<Vec<Entry>>,
    column: Ty,
    arms: Seq<usize>,
    scrutinee: Ty,
)
    requires
        matrix.len() == arms.len(),
        forall|i: int| 0 <= i < arms.len() ==> (#[trigger] matrix[i])@ == seq![Entry::Pat(arms[i])],
        classified(kinds, aliases, scrutinee.0 as int) == Some(column.0 as int),
        names_every_constructor(pats, kinds, aliases, defs, decls, arms, scrutinee),
    ensures
        named_all(pats, kinds, aliases, defs, decls, matrix, column),
{
    let c = classified(kinds, aliases, scrutinee.0 as int)->0;
    assert(c == column.0 as int);
    assert forall|k: int|
        #![trigger ctor_set(kinds, aliases, defs, decls, column.0 as int)->0[k]]
        0 <= k < ctor_set(kinds, aliases, defs, decls, column.0 as int)->0.len() implies exists|i: int|
            0 <= i < matrix.len() && #[trigger] row_names(
                pats,
                kinds,
                aliases,
                matrix[i]@,
                ctor_set(kinds, aliases, defs, decls, column.0 as int)->0[k],
                column.0 as int,
            ) by {
        let ck = ctor_set(kinds, aliases, defs, decls, c)->0[k];
        assert(exists|i: int|
            0 <= i < arms.len() && #[trigger] names_with_wildcards(pats, kinds, aliases, arms[i] as int, ck, c));
        let i = choose|i: int|
            0 <= i < arms.len() && #[trigger] names_with_wildcards(pats, kinds, aliases, arms[i] as int, ck, c);
        assert(matrix[i]@ == seq![Entry::Pat(arms[i])]);
        assert(matrix[i]@.subrange(1, 1) =~= Seq::<Entry>::empty());
        assert(row_names(pats, kinds, aliases, matrix[i]@, ck, column.0 as int));
    }
}

/// The report for one of the arms, no value reaching it.
pub open spec fn is_dead_arm_report(d: DiagnosticView, pats: Seq<Pat>, arms: Seq<usize>) -> bool {
    exists|k: int| 0 <= k < arms.len() && d == #[trigger] unreachable_arm_view(pats[arms[k] as int].span)
}

/// The report that a `match` at `span` over the type written `ty` is not
/// exhaustive, naming at least one witness.
pub open spec fn is_missing_report(d: DiagnosticView, span: Span, ty: Seq<char>) -> bool {
    exists|ws: Seq<Seq<char>>| ws.len() >= 1 && d == #[trigger] not_exhaustive_view(span, ty, ws)
}

/// A `match` with no arms over a type this module judges, and not one known
/// to have no constructor at all: some value reaches no arm of it.
pub open spec fn armless_with_values(
    kinds: Seq<KindView>,
    aliases: Map<DefId, Ty>,
    defs: Seq<Definition>,
    decls: Declarations,
    m: MatchExpr,
) -> bool {
    &&& m.arms@.len() == 0
    &&& !mentions_error(kinds, m.scrutinee_ty.0 as int)
    &&& classified(kinds, aliases, m.scrutinee_ty.0 as int) is Some
    &&& ctor_set(kinds, aliases, defs, decls, classified(kinds, aliases, m.scrutinee_ty.0 as int)->0) != Some(
        Seq::<CtorView>::empty(),
    )
}

/// A report that belongs to `m`: one of its dead arms, or that it is not
/// exhaustive.
pub open spec fn reports_of(d: DiagnosticView, pats: Seq<Pat>, m: MatchExpr) -> bool {
    is_dead_arm_report(d, pats, m.arms@) || is_missing_report(d, m.span, m.ty_text@)
}

/// A report that belongs to one of `matches`.
pub open spec fn reported_by_one(d: DiagnosticView, pats: Seq<Pat>, matches: Seq<MatchExpr>) -> bool {
    exists|j: int| 0 <= j < matches.len() && #[trigger] reports_of(d, pats, matches[j])
}

/// What `match_expr` may report: arms of the `match` no value reaches, and,
/// last, that the `match` is not exhaustive.
pub open spec fn match_report_shape(pats: Seq<Pat>, m: MatchExpr, out: Seq<Diagnostic>) -> bool {
    forall|i: int|
        0 <= i < out.len() ==> is_dead_arm_report(#[trigger] out[i]@, pats, m.arms@) || (i == out.len() - 1
            && is_missing_report(out[i]@, m.span, m.ty_text@))
}

/// The head of arm `k` of `m`, at the type the `match` is judged at.
pub open spec fn arm_head(pats: Seq<Pat>, kinds: Seq<KindView>, aliases: Map<DefId, Ty>, m: MatchExpr, k: int) -> HeadView {
    head_of(pats, kinds, aliases, m.arms@[k] as int, classified(kinds, aliases, m.scrutinee_ty.0 as int)->0)
}

/// The constructors of the type `m` is judged at, when there are finitely
/// many.
pub open spec fn scrutinee_set(
    kinds: Seq<KindView>,
    aliases: Map<DefId, Ty>,
    defs: Seq<Definition>,
    decls: Declarations,
    m: MatchExpr,
) -> Option<Seq<CtorView>> {
    ctor_set(kinds, aliases, defs, decls, classified(kinds, aliases, m.scrutinee_ty.0 as int)->0)
}

/// How many constructors that is; none when they never run out.
pub open spec fn set_len(
    kinds: Seq<KindView>,
    aliases: Map<DefId, Ty>,
    defs: Seq<Definition>,
    decls: Declarations,
    m: MatchExpr,
) -> int {
    match scrutinee_set(kinds, aliases, defs, decls, m) {
        Some(cs) => cs.len() as int,
        None => 0,
    }
}

/// Constructor `k` is covered by none of the first `n` arms of `m`.
pub open spec fn reaches_no_arm(
    pats: Seq<Pat>,
    kinds: Seq<KindView>,
    aliases: Map<DefId, Ty>,
    m: MatchExpr,
    n: int,
    k: CtorView,
) -> bool {
    forall|j: int| 0 <= j < n ==> !covers(#[trigger] arm_head(pats, kinds, aliases, m, j), HeadView::Ctor(k))
}

/// Some value reaches a catch-all placed after the first `n` arms of `m`:
/// one of finitely many constructors that none of them covers, or, when
/// the values never run out, none of them is a catch-all.
pub open spec fn wild_useful(
    pats: Seq<Pat>,
    kinds: Seq<KindView>,
    aliases: Map<DefId, Ty>,
    defs: Seq<Definition>,
    decls: Declarations,
    m: MatchExpr,
    n: int,
) -> bool {
    match scrutinee_set(kinds, aliases, defs, decls, m) {
        None => forall|j: int| 0 <= j < n ==> !(#[trigger] arm_head(pats, kinds, aliases, m, j) is Wild),
        Some(cs) => exists|c: int| 0 <= c < cs.len() && #[trigger] reaches_no_arm(pats, kinds, aliases, m, n, cs[c]),
    }
}

/// Arm `k` of `m` is dead: the arms above it already match every value it
/// does.
pub open spec fn arm_dead(
    pats: Seq<Pat>,
    kinds: Seq<KindView>,
    aliases: Map<DefId, Ty>,
    defs: Seq<Definition>,
    decls: Declarations,
    m: MatchExpr,
    k: int,
) -> bool {
    if arm_head(pats, kinds, aliases, m, k) is Wild {
        !wild_useful(pats, kinds, aliases, defs, decls, m, k)
    } else {
        exists|j: int| 0 <= j < k && covers(#[trigger] arm_head(pats, kinds, aliases, m, j), arm_head(pats, kinds, aliases, m, k))
    }
}

/// The spans of the dead arms among the first `n` arms of `m`, in order.
pub open spec fn dead_spans(
    pats: Seq<Pat>,
    kinds: Seq<KindView>,
    aliases: Map<DefId, Ty>,
    defs: Seq<Definition>,
    decls: Declarations,
    m: MatchExpr,
    n: int,
) -> Seq<Span>
    decreases n,
{
    if n <= 0 {
        seq![]
    } else if arm_dead(pats, kinds, aliases, defs, decls, m, n - 1) {
        dead_spans(pats, kinds, aliases, defs, decls, m, n - 1).push(pats[m.arms@[n - 1] as int].span)
    } else {
        dead_spans(pats, kinds, aliases, defs, decls, m, n - 1)
    }
}

/// A `match` whose arms have nothing under their heads, that this module
/// judges: the scrutinee's type has no hole and no alias in it, every arm
/// resolved, every arm is a catch-all or a value with no fields (a literal,
/// a boolean, a variant without fields), the type's constructors, when
/// finitely many, have no fields either, and the budget covers each arm and
/// the final question.
pub open spec fn simple_match(
    pats: Seq<Pat>,
    kinds: Seq<KindView>,
    aliases: Map<DefId, Ty>,
    defs: Seq<Definition>,
    decls: Declarations,
    m: MatchExpr,
) -> bool {
    &&& !mentions_error(kinds, m.scrutinee_ty.0 as int)
    &&& classified(kinds, aliases, m.scrutinee_ty.0 as int) is Some
    &&& forall|k: int| 0 <= k < m.arms@.len() ==> !#[trigger] unanswerable(pats, kinds, m.arms@[k] as int)
    &&& forall|k: int|
        0 <= k < m.arms@.len() ==> (#[trigger] arm_head(pats, kinds, aliases, m, k) is Wild || (arm_head(
            pats,
            kinds,
            aliases,
            m,
            k,
        ) matches HeadView::Ctor(c) && arity_of(decls, c) == 0))
    &&& scrutinee_set(kinds, aliases, defs, decls, m) matches Some(cs) ==> forall|k: int|
        0 <= k < cs.len() ==> arity_of(decls, #[trigger] cs[k]) == 0
    &&& (m.arms@.len() + 1) * (set_len(kinds, aliases, defs, decls, m) + 2) <= BUDGET
}

/// Some of the first `n` arms of `m` names a constructor.
pub open spec fn names_a_ctor(pats: Seq<Pat>, kinds: Seq<KindView>, aliases: Map<DefId, Ty>, m: MatchExpr, n: int) -> bool {
    exists|k: int| 0 <= k < n && (#[trigger] arm_head(pats, kinds, aliases, m, k) is Ctor)
}

/// `w` is how a constructor of the scrutinee's type that none of the first
/// `n` arms of `m` covers is written.
pub open spec fn names_unreached(
    pats: Seq<Pat>,
    kinds: Seq<KindView>,
    aliases: Map<DefId, Ty>,
    defs: Seq<Definition>,
    decls: Declarations,
    m: MatchExpr,
    n: int,
    w: Seq<char>,
) -> bool {
    let cs = scrutinee_set(kinds, aliases, defs, decls, m)->0;
    exists|c: int| 0 <= c < cs.len() && #[trigger] reaches_no_arm(pats, kinds, aliases, m, n, cs[c]) && w == ctor_text(defs, cs[c])
}

/// What a simple `match` reports: each dead arm, in order, and, when some
/// value reaches no arm, last, that the `match` is not exhaustive, with `_`
/// as its one witness when the values never run out.
pub open spec fn simple_outcome(
    pats: Seq<Pat>,
    kinds: Seq<KindView>,
    aliases: Map<DefId, Ty>,
    defs: Seq<Definition>,
    decls: Declarations,
    m: MatchExpr,
    out: Seq<Diagnostic>,
) -> bool {
    let n = m.arms@.len() as int;
    let dead = dead_spans(pats, kinds, aliases, defs, decls, m, n);
    let missing = wild_useful(pats, kinds, aliases, defs, decls, m, n);
    &&& out.len() == dead.len() + (if missing {
        1int
    } else {
        0int
    })
    &&& forall|t: int| 0 <= t < dead.len() ==> (#[trigger] out[t])@ == unreachable_arm_view(dead[t])
    &&& missing ==> is_missing_report(out.last()@, m.span, m.ty_text@)
    &&& missing && scrutinee_set(kinds, aliases, defs, decls, m) is None ==> out.last()@ == not_exhaustive_view(
        m.span,
        m.ty_text@,
        seq!["_"@],
    )
    &&& missing && scrutinee_set(kinds, aliases, defs, decls, m) is Some && names_a_ctor(pats, kinds, aliases, m, n)
        ==> exists|ws: Seq<Seq<char>>|
        ws.len() >= 1 && out.last()@ == not_exhaustive_view(m.span, m.ty_text@, ws) && forall|j: int|
            0 <= j < ws.len() ==> #[trigger] names_unreached(pats, kinds, aliases, defs, decls, m, n, ws[j])
}

/// What [`match_expr`] reports of one `match`: only its dead arms and, last,
/// that it is not exhaustive; nothing when the scrutinee's type is already a
/// hole, an arm did not resolve, or the scrutinee's type mentions an alias;
/// after a catch-all arm, every later arm reported dead and nothing reported
/// missing, unless nothing is reported at all; nothing missing when the arms
/// name every constructor; and something missing when there are no arms and
/// the type has values.
pub open spec fn match_outcome(
    pats: Seq<Pat>,
    m: MatchExpr,
    defs: Seq<Definition>,
    decls: Declarations,
    kinds: Seq<KindView>,
    aliases: Map<DefId, Ty>,
    out: Seq<Diagnostic>,
) -> bool {
    &&& match_report_shape(pats, m, out)
    &&& mentions_error(kinds, m.scrutinee_ty.0 as int) ==> out.len() == 0
    &&& (exists|k: int| 0 <= k < m.arms@.len() && #[trigger] unanswerable(pats, kinds, m.arms@[k] as int)) ==> out.len()
        == 0
    &&& classified(kinds, aliases, m.scrutinee_ty.0 as int) is None ==> out.len() == 0
    &&& forall|k: int|
        0 <= k < m.arms@.len() && catches_all(#[trigger] pats[m.arms@[k] as int].kind) ==> (out.len() == 0 || ((forall|j: int|
            k < j < m.arms@.len() ==> reports_dead_arm(out, #[trigger] pats[m.arms@[j] as int].span)) && !reports_missing(out)))
    &&& names_every_constructor(pats, kinds, aliases, defs, decls, m.arms@, m.scrutinee_ty) ==> !reports_missing(out)
    &&& armless_with_values(kinds, aliases, defs, decls, m) ==> reports_missing(out)
    &&& simple_match(pats, kinds, aliases, defs, decls, m) ==> simple_outcome(pats, kinds, aliases, defs, decls, m, out)
}

/// The reports of several `match`es, one after another.
pub open spec fn concatenated(parts: Seq<Seq<Diagnostic>>) -> Seq<Diagnostic>
    decreases parts.len(),
{
    if parts.len() == 0 {
        seq![]
    } else {
        concatenated(parts.drop_last()) + parts.last()
    }
}

/// The step of the budget a `match` of simple arms spends.
proof fn lemma_budget_step(a: int, n: int, l: int)
    by (nonlinear_arith)
    requires
        0 <= a < n,
        l >= 0,
    ensures
        a * (l + 2) + (l + 2) == (a + 1) * (l + 2),
        (a + 1) * (l + 2) <= n * (l + 2),
        n * (l + 2) + (l + 2) == (n + 1) * (l + 2),
        0 <= a * (l + 2),
{
}

/// The heads of a matrix whose rows are the first `n` arms of `m` answer
/// the questions about those arms.
proof fn lemma_arm_rows(
    pats: Seq<Pat>,
    kinds: Seq<KindView>,
    aliases: Map<DefId, Ty>,
    defs: Seq<Definition>,
    decls: Declarations,
    m: MatchExpr,
    c: Checker,
    matrix: Seq<Vec<Entry>>,
    column: Ty,
    n: int,
    q: HeadView,
)
    requires
        matrix.len() == n,
        forall|i: int| 0 <= i < n ==> #[trigger] c.head_spec(matrix[i]@[0], column) == arm_head(pats, kinds, aliases, m, i),
        c.ctor_set_spec(column) == scrutinee_set(kinds, aliases, defs, decls, m),
    ensures
        scrutinee_set(kinds, aliases, defs, decls, m) is None ==> (wild_useful(pats, kinds, aliases, defs, decls, m, n)
            <==> forall|i: int| 0 <= i < n ==> !covers(#[trigger] c.head_spec(matrix[i]@[0], column), HeadView::Wild)),
        scrutinee_set(kinds, aliases, defs, decls, m) matches Some(cs) ==> (wild_useful(pats, kinds, aliases, defs, decls, m, n)
            <==> exists|k: int| 0 <= k < cs.len() && #[trigger] uncovered(c, matrix, column, cs[k])),
        (exists|j: int| 0 <= j < n && covers(#[trigger] arm_head(pats, kinds, aliases, m, j), q)) <==> (exists|i: int|
            0 <= i < n && covers(#[trigger] c.head_spec(matrix[i]@[0], column), q)),
        forall|k: CtorView| #[trigger] uncovered(c, matrix, column, k) == reaches_no_arm(pats, kinds, aliases, m, n, k),
        names_a_ctor(pats, kinds, aliases, m, n) ==> names_some_ctor(c, matrix, column),
{
    assert forall|k: CtorView| #[trigger] uncovered(c, matrix, column, k) == reaches_no_arm(pats, kinds, aliases, m, n, k) by {
        if uncovered(c, matrix, column, k) {
            assert forall|j: int| 0 <= j < n implies !covers(#[trigger] arm_head(pats, kinds, aliases, m, j), HeadView::Ctor(k)) by {
                assert(!covers(c.head_spec(matrix[j]@[0], column), HeadView::Ctor(k)));
            }
        }
        if reaches_no_arm(pats, kinds, aliases, m, n, k) {
            assert forall|i: int| 0 <= i < matrix.len() implies !covers(#[trigger] c.head_spec(matrix[i]@[0], column), HeadView::Ctor(k)) by {
                assert(!covers(arm_head(pats, kinds, aliases, m, i), HeadView::Ctor(k)));
            }
        }
    }
    if names_a_ctor(pats, kinds, aliases, m, n) {
        let k = choose|k: int| 0 <= k < n && (#[trigger] arm_head(pats, kinds, aliases, m, k) is Ctor);
        assert(c.head_spec(matrix[k]@[0], column) is Ctor);
    }
    {
        if exists|j: int| 0 <= j < n && covers(#[trigger] arm_head(pats, kinds, aliases, m, j), q) {
            let j = choose|j: int| 0 <= j < n && covers(#[trigger] arm_head(pats, kinds, aliases, m, j), q);
            assert(covers(c.head_spec(matrix[j]@[0], column), q));
        }
        if exists|i: int| 0 <= i < n && covers(#[trigger] c.head_spec(matrix[i]@[0], column), q) {
            let i = choose|i: int| 0 <= i < n && covers(#[trigger] c.head_spec(matrix[i]@[0], column), q);
            assert(covers(arm_head(pats, kinds, aliases, m, i), q));
        }
    }
    match scrutinee_set(kinds, aliases, defs, decls, m) {
        None => {
            if wild_useful(pats, kinds, aliases, defs, decls, m, n) {
                assert forall|i: int| 0 <= i < n implies !covers(#[trigger] c.head_spec(matrix[i]@[0], column), HeadView::Wild) by {
                    assert(!(arm_head(pats, kinds, aliases, m, i) is Wild));
                }
            } else {
                let j = choose|j: int| 0 <= j < n && (#[trigger] arm_head(pats, kinds, aliases, m, j) is Wild);
                assert(covers(c.head_spec(matrix[j]@[0], column), HeadView::Wild));
            }
        },
        Some(cs) => {
            if wild_useful(pats, kinds, aliases, defs, decls, m, n) {
                let k = choose|k: int| 0 <= k < cs.len() && #[trigger] reaches_no_arm(pats, kinds, aliases, m, n, cs[k]);
                assert forall|i: int| 0 <= i < matrix.len() implies !covers(#[trigger] c.head_spec(matrix[i]@[0], column), HeadView::Ctor(cs[k])) by {
                    assert(!covers(arm_head(pats, kinds, aliases, m, i), HeadView::Ctor(cs[k])));
                }
                assert(uncovered(c, matrix, column, cs[k]));
            } else {
                assert forall|k: int| 0 <= k < cs.len() implies !#[trigger] uncovered(c, matrix, column, cs[k]) by {
                    assert(!reaches_no_arm(pats, kinds, aliases, m, n, cs[k]));
                    let j = choose|j: int|
                        0 <= j < n && covers(#[trigger] arm_head(pats, kinds, aliases, m, j), HeadView::Ctor(cs[k]));
                    assert(covers(c.head_spec(matrix[j]@[0], column), HeadView::Ctor(cs[k])));
                }
            }
        },
    }
}

/// Checks one `match`: reports each arm no value reaches, then, when some
/// value reaches no arm, the values that do not, by their shape.
///
/// Nothing is reported for a `match` whose scrutinee's type is already a
/// hole, one with an arm that did not resolve, one whose scrutinee's type
/// mentions an alias, or one whose analysis runs out of budget.
///
/// For a `match` whose arms have nothing under their heads, the report is
/// exact: an arm is reported dead when and only when the arms above it
/// already cover it, in order, and the `match` is reported non-exhaustive
/// when and only when a catch-all placed last would be reached.
pub fn match_expr(
    pats: &[Pat],
    m: &MatchExpr,
    defs: &[Definition],
    decls: &Declarations,
    types: &Types,
    aliases: &Aliases,
) -> (out: Vec<Diagnostic>)
    requires
        types.wf(),
        decls.wf(),
        aliases.wf(),
        patterns_wf(pats@, types@),
        types.valid(m.scrutinee_ty),
        forall|k: int| 0 <= k < m.arms@.len() ==> #[trigger] m.arms@[k] < pats@.len(),
    ensures
        match_report_shape(pats@, *m, out@),
        mentions_error(types@, m.scrutinee_ty.0 as int) ==> out@.len() == 0,
        (exists|k: int| 0 <= k < m.arms@.len() && #[trigger] unanswerable(pats@, types@, m.arms@[k] as int))
            ==> out@.len() == 0,
        classified(types@, aliases@, m.scrutinee_ty.0 as int) is None ==> out@.len() == 0,
        forall|k: int|
            0 <= k < m.arms@.len() && catches_all(#[trigger] pats@[m.arms@[k] as int].kind) ==> (out@.len() == 0
                || ((forall|j: int| k < j < m.arms@.len() ==> reports_dead_arm(out@, #[trigger] pats@[m.arms@[j] as int].span))
                && !reports_missing(out@))),
        names_every_constructor(pats@, types@, aliases@, defs@, *decls, m.arms@, m.scrutinee_ty) ==> !reports_missing(out@),
        armless_with_values(types@, aliases@, defs@, *decls, *m) ==> reports_missing(out@),
        simple_match(pats@, types@, aliases@, defs@, *decls, *m) ==> simple_outcome(pats@, types@, aliases@, defs@, *decls, *m, out@),
        match_outcome(pats@, *m, defs@, *decls, types@, aliases@, out@),
{
    let mut checker = Checker { pats, defs, decls, types, aliases, spent: 0 };
    let ghost start = checker;
    let ghost simple = simple_match(pats@, types@, aliases@, defs@, *decls, *m);
    let ghost flatm = simple && scrutinee_set(types@, aliases@, defs@, *decls, *m) is None;
    let ghost l = set_len(types@, aliases@, defs@, *decls, *m);
    let scrutinee_ty = m.scrutinee_ty;
    let arms = &m.arms;
    if types.references_error(scrutinee_ty) {
        return Vec::new();
    }
    let mut k: usize = 0;
    while k < arms.len()
        invariant
            checker.wf(),
            checker.pats == pats,
            checker.types == types,
            k <= arms@.len(),
            arms@ == m.arms@,
            forall|i: int| 0 <= i < arms@.len() ==> #[trigger] arms@[i] < pats@.len(),
            forall|i: int| 0 <= i < k ==> !#[trigger] unanswerable(pats@, types@, arms@[i] as int),
        decreases arms@.len() - k,
    {
        if checker.pattern_is_unanswerable(arms[k]) {
            return Vec::new();
        }
        k = k + 1;
    }
    let column = match checker.classify(scrutinee_ty) {
        Some(c) => c,
        None => {
            return Vec::new();
        },
    };
    let mut cols: Vec<Ty> = Vec::new();
    cols.push(column);
    proof {
        if simple {
            lemma_peeled_is_no_worse(types@, aliases@, m.scrutinee_ty.0 as int);
            assert(plain_column(checker, column));
            assert(checker.ctor_set_spec(column) == scrutinee_set(types@, aliases@, defs@, *decls, *m));
        }
    }

    let mut matrix: Vec<Vec<Entry>> = Vec::new();
    let mut dead: Vec<Span> = Vec::new();
    let mut a: usize = 0;
    while a < arms.len()
        invariant
            simple == simple_match(pats@, types@, aliases@, defs@, *decls, *m),
            l == set_len(types@, aliases@, defs@, *decls, *m),
            l >= 0,
            column.0 as int == classified(types@, aliases@, m.scrutinee_ty.0 as int)->0,
            simple ==> plain_column(checker, column),
            simple ==> checker.ctor_set_spec(column) == scrutinee_set(types@, aliases@, defs@, *decls, *m),
            simple ==> checker.spent <= a * (l + 2),
            simple ==> dead@ == dead_spans(pats@, types@, aliases@, defs@, *decls, *m, a as int),
            checker.wf(),
            same_tables(checker, start),
            checker.pats == pats,
            checker.types == types,
            checker.aliases == aliases,
            checker.defs == defs,
            checker.decls == decls,
            checker.spent <= BUDGET,
            types.valid(column),
            cols@ == seq![column],
            a <= arms@.len(),
            arms@ == m.arms@,
            a == 0 ==> checker.spent == 0,
            forall|i: int| 0 <= i < arms@.len() ==> #[trigger] arms@[i] < pats@.len(),
            matrix@.len() == a,
            forall|i: int| 0 <= i < a ==> (#[trigger] matrix@[i])@ == seq![Entry::Pat(arms@[i])],
            forall|i: int| 0 <= i < dead@.len() ==> exists|g: int| 0 <= g < a && #[trigger] dead@[i] == pats@[arms@[g] as int].span,
            forall|g: int, j: int|
                0 <= g < j < a && catches_all(#[trigger] pats@[arms@[g] as int].kind) ==> dead@.contains(
                    #[trigger] pats@[arms@[j] as int].span,
                ),
        decreases arms@.len() - a,
    {
        let mut row: Vec<Entry> = Vec::new();
        row.push(Entry::Pat(arms[a]));
        proof {
            assert(row@ == seq![Entry::Pat(arms@[a as int])]);
            assert(entry_ok(pats@, row@[0]));
            assert forall|i: int| 0 <= i < matrix@.len() implies (#[trigger] matrix@[i])@.len() == 1 && row_ok(
                pats@,
                matrix@[i]@,
            ) by {
                assert(matrix@[i]@ == seq![Entry::Pat(arms@[i])]);
                assert(matrix@[i]@[0] == Entry::Pat(arms@[i]));
            }
            assert(matrix_ok(pats@, matrix@, 1));
            if simple {
                assert forall|i: int| 0 <= i < matrix@.len() implies #[trigger] checker.head_spec(matrix@[i]@[0], column)
                    == arm_head(pats@, types@, aliases@, *m, i) by {
                    assert(matrix@[i]@ == seq![Entry::Pat(arms@[i])]);
                }
                assert forall|i: int| 0 <= i < matrix@.len() implies !(#[trigger] checker.head_spec(matrix@[i]@[0], column) is Or) by {
                    assert(checker.head_spec(matrix@[i]@[0], column) == arm_head(pats@, types@, aliases@, *m, i));
                }
                assert(checker.head_spec(row@[0], column) == arm_head(pats@, types@, aliases@, *m, a as int));
                lemma_budget_step(a as int, arms@.len() as int, l);
                lemma_arm_rows(pats@, types@, aliases@, defs@, *decls, *m, checker, matrix@, column, a as int, HeadView::Wild);
                match scrutinee_set(types@, aliases@, defs@, *decls, *m) {
                    None => {
                        assert(flat_column(checker, column));
                        assert(l == 0);
                    },
                    Some(cs) => {
                        assert(nullary_column(checker, column));
                        assert(l == cs.len());
                    },
                }
            }
        }
        let ghost before_call = checker;
        let found = match checker.useful(&matrix, &row, &cols) {
            Some(f) => f,
            None => {
                return Vec::new();
            },
        };
        let ghost dead_before = dead@;
        let ghost span = pats@[arms@[a as int] as int].span;
        proof {
            if exists|g: int| 0 <= g < a && catches_all(#[trigger] pats@[arms@[g] as int].kind) {
                let g = choose|g: int| 0 <= g < a && catches_all(#[trigger] pats@[arms@[g] as int].kind);
                assert(matrix@[g]@ == seq![Entry::Pat(arms@[g])]);
                assert(all_wild(pats@, matrix@[g]@));
                assert(has_wild_row(pats@, matrix@));
            }
        }
        proof {
            if simple {
                let q = arm_head(pats@, types@, aliases@, *m, a as int);
                lemma_arm_rows(pats@, types@, aliases@, defs@, *decls, *m, before_call, matrix@, column, a as int, q);
                assert((found@.len() == 0) == arm_dead(pats@, types@, aliases@, defs@, *decls, *m, a as int));
                assert(checker.spent <= (a + 1) * (l + 2));
            }
        }
        if found.len() == 0 {
            dead.push(pats[arms[a]].span);
            proof {
                assert(dead@.last() == span);
            }
        }
        proof {
            if simple {
                assert(dead@ =~= dead_spans(pats@, types@, aliases@, defs@, *decls, *m, a + 1));
            }
        }
        let ghost matrix_before = matrix@;
        matrix.push(row);
        proof {
            assert forall|i: int| 0 <= i < a + 1 implies (#[trigger] matrix@[i])@ == seq![Entry::Pat(arms@[i])] by {
                if i < a {
                    assert(matrix@[i] == matrix_before[i]);
                }
            }
            assert forall|i: int| 0 <= i < dead@.len() implies exists|g: int| 0 <= g < a + 1 && #[trigger] dead@[i] == pats@[arms@[g] as int].span by {
                if i < dead_before.len() {
                    assert(dead@[i] == dead_before[i]);
                    let g = choose|g: int| 0 <= g < a && #[trigger] dead_before[i] == pats@[arms@[g] as int].span;
                    assert(dead@[i] == pats@[arms@[g] as int].span);
                } else {
                    assert(dead@[i] == pats@[arms@[a as int] as int].span);
                }
            }
            assert forall|g: int, j: int|
                0 <= g < j < a + 1 && catches_all(#[trigger] pats@[arms@[g] as int].kind) implies dead@.contains(
                    #[trigger] pats@[arms@[j] as int].span,
                ) by {
                if j < a {
                    assert(dead_before.contains(pats@[arms@[j] as int].span));
                    let t = choose|t: int| 0 <= t < dead_before.len() && dead_before[t] == pats@[arms@[j] as int].span;
                    assert(dead@[t] == dead_before[t]);
                } else {
                    assert(dead@[dead@.len() - 1] == span);
                }
            }
        }
        a = a + 1;
    }

    let query = wild_row(1);
    proof {
        assert(query@ =~= seq![Entry::Wild]);
        assert forall|i: int| 0 <= i < matrix@.len() implies (#[trigger] matrix@[i])@.len() == 1 && row_ok(
            pats@,
            matrix@[i]@,
        ) by {
            assert(matrix@[i]@ == seq![Entry::Pat(arms@[i])]);
            assert(matrix@[i]@[0] == Entry::Pat(arms@[i]));
        }
        if names_every_constructor(pats@, types@, aliases@, defs@, *decls, m.arms@, m.scrutinee_ty) {
            assert(classified(types@, aliases@, m.scrutinee_ty.0 as int) == Some(column.0 as int));
            assert(ctor_set(types@, aliases@, defs@, *decls, column.0 as int) is Some);
            lemma_named_all(pats@, types@, aliases@, defs@, *decls, matrix@, column, m.arms@, m.scrutinee_ty);
            assert(named_all(pats@, types@, aliases@, defs@, *decls, matrix@, column));
        }
        if exists|g: int| 0 <= g < arms@.len() && catches_all(#[trigger] pats@[arms@[g] as int].kind) {
            let g = choose|g: int| 0 <= g < arms@.len() && catches_all(#[trigger] pats@[arms@[g] as int].kind);
            assert(matrix@[g]@ == seq![Entry::Pat(arms@[g])]);
            assert(all_wild(pats@, matrix@[g]@));
            assert(has_wild_row(pats@, matrix@));
        }
    }
    proof {
        if arms@.len() == 0 && !mentions_error(types@, m.scrutinee_ty.0 as int) {
            lemma_peeled_is_no_worse(types@, aliases@, m.scrutinee_ty.0 as int);
            assert(open_column(checker, column) <==> ctor_set(types@, aliases@, defs@, *decls, column.0 as int) != Some(
                Seq::<CtorView>::empty(),
            ));
        }
    }
    proof {
        if simple {
            assert forall|i: int| 0 <= i < matrix@.len() implies #[trigger] checker.head_spec(matrix@[i]@[0], column)
                == arm_head(pats@, types@, aliases@, *m, i) by {
                assert(matrix@[i]@ == seq![Entry::Pat(arms@[i])]);
            }
            assert forall|i: int| 0 <= i < matrix@.len() implies !(#[trigger] checker.head_spec(matrix@[i]@[0], column) is Or) by {
                assert(checker.head_spec(matrix@[i]@[0], column) == arm_head(pats@, types@, aliases@, *m, i));
            }
            assert(flat_query(checker, query@, column));
            lemma_budget_step(0, 1, l);
            assert(arms@.len() * (l + 2) + (l + 2) == (arms@.len() + 1) * (l + 2)) by (nonlinear_arith);
            lemma_arm_rows(pats@, types@, aliases@, defs@, *decls, *m, checker, matrix@, column, arms@.len() as int, HeadView::Wild);
            match scrutinee_set(types@, aliases@, defs@, *decls, *m) {
                None => {
                    assert(flat_column(checker, column));
                },
                Some(cs) => {
                    assert(nullary_column(checker, column));
                },
            }
        }
    }
    let ghost before_call = checker;
    let witnesses = match checker.useful(&matrix, &query, &cols) {
        Some(w) => w,
        None => {
            return Vec::new();
        },
    };
    proof {
        if simple {
            lemma_arm_rows(pats@, types@, aliases@, defs@, *decls, *m, before_call, matrix@, column, arms@.len() as int, HeadView::Wild);
            assert((witnesses@.len() > 0) == wild_useful(pats@, types@, aliases@, defs@, *decls, *m, arms@.len() as int));
        }
    }
    let ghost named = simple && scrutinee_set(types@, aliases@, defs@, *decls, *m) is Some && names_a_ctor(
        pats@,
        types@,
        aliases@,
        *m,
        arms@.len() as int,
    );
    proof {
        if named {
            let n = arms@.len() as int;
            let cs = scrutinee_set(types@, aliases@, defs@, *decls, *m)->0;
            assert(before_call.ctor_set_spec(column)->0 == cs);
            assert forall|j: int| 0 <= j < witnesses@.len() implies (#[trigger] witnesses@[j])@.len() == 1 && witness_text(
                defs@,
                witnesses@[j]@[0],
            ) == witness_text(defs@, witnesses@[j]@[0]) && names_unreached(
                pats@,
                types@,
                aliases@,
                defs@,
                *decls,
                *m,
                n,
                witness_text(defs@, witnesses@[j]@[0]),
            ) by {
                assert(names_missing(before_call, matrix@, column, witness_view(witnesses@[j]@[0])));
                let k = choose|k: int|
                    0 <= k < cs.len() && #[trigger] uncovered(before_call, matrix@, column, cs[k]) && witness_view(
                        witnesses@[j]@[0],
                    ) == assembled(*decls, cs[k], wildcards(0));
                lemma_set_has_no_literal(types@, aliases@, defs@, *decls, column.0 as int, k);
                lemma_nullary_witness_text(defs@, *decls, witnesses@[j]@[0], cs[k]);
                assert(reaches_no_arm(pats@, types@, aliases@, *m, n, cs[k]));
            }
        }
    }

    let mut out: Vec<Diagnostic> = Vec::new();
    let mut i: usize = 0;
    while i < dead.len()
        invariant
            i <= dead@.len(),
            out@.len() == i,
            forall|t: int| 0 <= t < i ==> (#[trigger] out@[t])@ == unreachable_arm_view(dead@[t]),
        decreases dead@.len() - i,
    {
        out.push(unreachable_arm(dead[i]));
        i = i + 1;
    }
    proof {
        assert forall|t: int| 0 <= t < out@.len() implies is_dead_arm_report(#[trigger] out@[t]@, pats@, m.arms@) by {
            let g = choose|g: int| 0 <= g < arms@.len() && #[trigger] dead@[t] == pats@[arms@[g] as int].span;
            assert(out@[t]@ == unreachable_arm_view(pats@[m.arms@[g] as int].span));
        }
        assert forall|g: int, j: int|
            0 <= g < j < m.arms@.len() && catches_all(pats@[m.arms@[g] as int].kind) implies reports_dead_arm(
                out@,
                pats@[m.arms@[j] as int].span,
            ) by {
            assert(catches_all(pats@[arms@[g] as int].kind));
            assert(dead@.contains(pats@[arms@[j] as int].span));
            let t = choose|t: int| 0 <= t < dead@.len() && dead@[t] == pats@[arms@[j] as int].span;
            assert(out@[t]@ == unreachable_arm_view(pats@[m.arms@[j] as int].span));
        }
        assert forall|t: int| 0 <= t < out@.len() implies (#[trigger] out@[t]@).code != NON_EXHAUSTIVE_MATCH by {
            assert(out@[t]@ == unreachable_arm_view(dead@[t]));
        }
    }
    if witnesses.len() == 0 {
        return out;
    }

    let mut rendered: Vec<String> = Vec::new();
    let mut w: usize = 0;
    while w < witnesses.len()
        invariant
            flatm ==> witnesses@.len() == 1 && witnesses@[0]@ == seq![Witness::Wildcard],
            named ==> forall|j: int|
                0 <= j < witnesses@.len() ==> (#[trigger] witnesses@[j])@.len() == 1 && names_unreached(
                    pats@,
                    types@,
                    aliases@,
                    defs@,
                    *decls,
                    *m,
                    arms@.len() as int,
                    witness_text(defs@, witnesses@[j]@[0]),
                ),
            named ==> forall|j: int|
                0 <= j < w ==> names_unreached(
                    pats@,
                    types@,
                    aliases@,
                    defs@,
                    *decls,
                    *m,
                    arms@.len() as int,
                    (#[trigger] rendered@[j])@,
                ),
            checker.defs == defs,
            flatm ==> forall|j: int| 0 <= j < w ==> (#[trigger] rendered@[j])@ == "_"@,
            checker.wf(),
            w <= witnesses@.len(),
            rendered@.len() == w,
            rows_len(witnesses@, 1),
            rows_lit_free(witnesses@),
        decreases witnesses@.len() - w,
    {
        proof {
            assert(witnesses@[w as int]@.len() == 1);
            assert(lit_free(witnesses@[w as int]@[0]));
        }
        let text = checker.render(&witnesses[w][0]);
        let ghost before = rendered@;
        rendered.push(text);
        proof {
            if named {
                assert forall|j: int| 0 <= j < w + 1 implies names_unreached(
                    pats@,
                    types@,
                    aliases@,
                    defs@,
                    *decls,
                    *m,
                    arms@.len() as int,
                    (#[trigger] rendered@[j])@,
                ) by {
                    if j < w {
                        assert(rendered@[j] == before[j]);
                    } else {
                        assert(rendered@[j]@ == witness_text(defs@, witnesses@[w as int]@[0]));
                    }
                }
            }
        }
        w = w + 1;
    }
    let shown = dedup(rendered);
    proof {
        if flatm {
            assert(views_of(rendered@) =~= seq!["_"@]);
            assert(seq!["_"@].drop_last() =~= Seq::<Seq<char>>::empty());
            assert(first_occurrences(seq!["_"@]) =~= seq!["_"@]) by {
                reveal_with_fuel(first_occurrences, 2);
                assert(!Seq::<Seq<char>>::empty().contains("_"@));
            }
        }
        let items = views_of(rendered@);
        lemma_first_occurrences_contains(items);
        assert(items.contains(items[0]));
        assert(first_occurrences(items).contains(items[0]));
        assert(views_of(shown@).len() >= 1);
    }
    let d = not_exhaustive(m.span, m.ty_text.as_str(), shown.as_slice());
    let ghost before = out@;
    out.push(d);
    proof {
        assert forall|t: int| 0 <= t < out@.len() - 1 implies is_dead_arm_report(#[trigger] out@[t]@, pats@, m.arms@) by {
            assert(out@[t] == before[t]);
        }
        assert(out@[out@.len() - 1]@ == not_exhaustive_view(m.span, m.ty_text@, views_of(shown@)));
        assert(is_missing_report(out@[out@.len() - 1]@, m.span, m.ty_text@));
        if named {
            let ws = views_of(shown@);
            let items = views_of(rendered@);
            lemma_first_occurrences_contains(items);
            assert forall|j: int| 0 <= j < ws.len() implies #[trigger] names_unreached(
                pats@,
                types@,
                aliases@,
                defs@,
                *decls,
                *m,
                arms@.len() as int,
                ws[j],
            ) by {
                assert(first_occurrences(items).contains(ws[j]));
                let t = choose|t: int| 0 <= t < items.len() && items[t] == ws[j];
                assert(items[t] == rendered@[t]@);
            }
            assert(out@.last()@ == not_exhaustive_view(m.span, m.ty_text@, ws));
        }
    }
    out
}

/// Checks every `match` of one body, in order, and appends what each
/// reports.
pub fn report(
    pats: &[Pat],
    matches: &[MatchExpr],
    defs: &[Definition],
    decls: &Declarations,
    types: &Types,
    aliases: &Aliases,
    diagnostics: &mut Vec<Diagnostic>,
)
    requires
        types.wf(),
        decls.wf(),
        aliases.wf(),
        patterns_wf(pats@, types@),
        forall|i: int| 0 <= i < matches@.len() ==> types.valid(#[trigger] matches@[i].scrutinee_ty),
        forall|i: int, k: int|
            0 <= i < matches@.len() && 0 <= k < matches@[i].arms@.len() ==> #[trigger] matches@[i].arms@[k] < pats@.len(),
    ensures
        final(diagnostics)@.len() >= old(diagnostics)@.len(),
        final(diagnostics)@.subrange(0, old(diagnostics)@.len() as int) == old(diagnostics)@,
        forall|t: int|
            old(diagnostics)@.len() <= t < final(diagnostics)@.len() ==> ((#[trigger] final(diagnostics)@[t]@).code
                == UNREACHABLE_ARM || final(diagnostics)@[t]@.code == NON_EXHAUSTIVE_MATCH),
        forall|t: int|
            old(diagnostics)@.len() <= t < final(diagnostics)@.len() ==> reported_by_one(
                #[trigger] final(diagnostics)@[t]@,
                pats@,
                matches@,
            ),
        forall|i: int|
            0 <= i < matches@.len() && armless_with_values(types@, aliases@, defs@, *decls, #[trigger] matches@[i])
                ==> exists|t: int|
                old(diagnostics)@.len() <= t < final(diagnostics)@.len() && is_missing_report(
                    #[trigger] final(diagnostics)@[t]@,
                    matches@[i].span,
                    matches@[i].ty_text@,
                ),
        exists|parts: Seq<Seq<Diagnostic>>|
            #![trigger concatenated(parts)]
            parts.len() == matches@.len() && final(diagnostics)@ == old(diagnostics)@ + concatenated(parts) && forall|
                i: int,
            |
                0 <= i < matches@.len() ==> #[trigger] match_outcome(
                    pats@,
                    matches@[i],
                    defs@,
                    *decls,
                    types@,
                    aliases@,
                    parts[i],
                ),
{
    let ghost parts: Seq<Seq<Diagnostic>> = seq![];
    let mut i: usize = 0;
    while i < matches.len()
        invariant
            parts.len() == i,
            diagnostics@ == old(diagnostics)@ + concatenated(parts),
            forall|j: int| 0 <= j < i ==> #[trigger] match_outcome(pats@, matches@[j], defs@, *decls, types@, aliases@, parts[j]),
            types.wf(),
            decls.wf(),
            aliases.wf(),
            patterns_wf(pats@, types@),
            forall|j: int| 0 <= j < matches@.len() ==> types.valid(#[trigger] matches@[j].scrutinee_ty),
            forall|j: int, k: int|
                0 <= j < matches@.len() && 0 <= k < matches@[j].arms@.len() ==> #[trigger] matches@[j].arms@[k] < pats@.len(),
            i <= matches@.len(),
            diagnostics@.len() >= old(diagnostics)@.len(),
            diagnostics@.subrange(0, old(diagnostics)@.len() as int) == old(diagnostics)@,
            forall|t: int|
                old(diagnostics)@.len() <= t < diagnostics@.len() ==> ((#[trigger] diagnostics@[t]@).code == UNREACHABLE_ARM
                    || diagnostics@[t]@.code == NON_EXHAUSTIVE_MATCH),
            forall|t: int|
                old(diagnostics)@.len() <= t < diagnostics@.len() ==> exists|j: int|
                    0 <= j < i && reports_of(#[trigger] diagnostics@[t]@, pats@, matches@[j]),
            forall|j: int|
                0 <= j < i && armless_with_values(types@, aliases@, defs@, *decls, #[trigger] matches@[j]) ==> exists|t: int|
                    old(diagnostics)@.len() <= t < diagnostics@.len() && is_missing_report(
                        #[trigger] diagnostics@[t]@,
                        matches@[j].span,
                        matches@[j].ty_text@,
                    ),
        decreases matches@.len() - i,
    {
        let m = &matches[i];
        proof {
            assert forall|k: int| 0 <= k < m.arms@.len() implies #[trigger] m.arms@[k] < pats@.len() by {
                assert(matches@[i as int].arms@[k] < pats@.len());
            }
        }
        let mut found = match_expr(pats, m, defs, decls, types, aliases);
        let ghost before = diagnostics@;
        let ghost added = found@;
        diagnostics.append(&mut found);
        proof {
            let before_parts = parts;
            parts = parts.push(added);
            assert(parts.drop_last() =~= before_parts);
            assert(diagnostics@ =~= old(diagnostics)@ + concatenated(parts));
            assert forall|j: int| 0 <= j < i + 1 implies #[trigger] match_outcome(
                pats@,
                matches@[j],
                defs@,
                *decls,
                types@,
                aliases@,
                parts[j],
            ) by {
                if j < i {
                    assert(parts[j] == before_parts[j]);
                }
            }
        }
        proof {
            assert(diagnostics@.subrange(0, old(diagnostics)@.len() as int) =~= old(diagnostics)@) by {
                assert forall|t: int| 0 <= t < old(diagnostics)@.len() implies diagnostics@[t] == old(diagnostics)@[t] by {
                    assert(diagnostics@[t] == before[t]);
                    assert(before.subrange(0, old(diagnostics)@.len() as int)[t] == before[t]);
                }
            }
            assert forall|t: int| old(diagnostics)@.len() <= t < diagnostics@.len() implies ((#[trigger] diagnostics@[t]@).code
                == UNREACHABLE_ARM || diagnostics@[t]@.code == NON_EXHAUSTIVE_MATCH) by {
                if t < before.len() {
                    assert(diagnostics@[t] == before[t]);
                } else {
                    let u = t - before.len();
                    assert(diagnostics@[t] == added[u]);
                    if is_dead_arm_report(added[u]@, pats@, m.arms@) {
                        let k = choose|k: int| 0 <= k < m.arms@.len() && added[u]@ == #[trigger] unreachable_arm_view(pats@[m.arms@[k] as int].span);
                    } else {
                        assert(is_missing_report(added[u]@, m.span, m.ty_text@));
                        let ws = choose|ws: Seq<Seq<char>>| ws.len() >= 1 && added[u]@ == #[trigger] not_exhaustive_view(m.span, m.ty_text@, ws);
                    }
                }
            }
            assert forall|t: int| old(diagnostics)@.len() <= t < diagnostics@.len() implies exists|j: int|
                0 <= j < i + 1 && reports_of(#[trigger] diagnostics@[t]@, pats@, matches@[j]) by {
                if t < before.len() {
                    assert(diagnostics@[t] == before[t]);
                    let j = choose|j: int| 0 <= j < i && reports_of(#[trigger] before[t]@, pats@, matches@[j]);
                    assert(reports_of(diagnostics@[t]@, pats@, matches@[j]));
                } else {
                    let u = t - before.len();
                    assert(diagnostics@[t] == added[u]);
                    assert(reports_of(added[u]@, pats@, matches@[i as int]));
                }
            }
            assert forall|j: int|
                0 <= j < i + 1 && armless_with_values(types@, aliases@, defs@, *decls, #[trigger] matches@[j]) implies exists|t: int|
                    old(diagnostics)@.len() <= t < diagnostics@.len() && is_missing_report(
                        #[trigger] diagnostics@[t]@,
                        matches@[j].span,
                        matches@[j].ty_text@,
                    ) by {
                if j < i {
                    let t = choose|t: int|
                        old(diagnostics)@.len() <= t < before.len() && is_missing_report(
                            #[trigger] before[t]@,
                            matches@[j].span,
                            matches@[j].ty_text@,
                        );
                    assert(diagnostics@[t] == before[t]);
                } else {
                    let u = choose|u: int| 0 <= u < added.len() && (#[trigger] added[u]@).code == NON_EXHAUSTIVE_MATCH;
                    assert(diagnostics@[before.len() + u] == added[u]);
                    if is_dead_arm_report(added[u]@, pats@, m.arms@) {
                        let k = choose|k: int| 0 <= k < m.arms@.len() && added[u]@ == #[trigger] unreachable_arm_view(pats@[m.arms@[k] as int].span);
                        assert(false);
                    }
                    assert(is_missing_report(diagnostics@[before.len() + u]@, m.span, m.ty_text@));
                }
            }
        }
        i = i + 1;
    }
    proof {
        assert forall|t: int| old(diagnostics)@.len() <= t < diagnostics@.len() implies reported_by_one(
            #[trigger] diagnostics@[t]@,
            pats@,
            matches@,
        ) by {
            let j = choose|j: int| 0 <= j < i && reports_of(#[trigger] diagnostics@[t]@, pats@, matches@[j]);
            assert(0 <= j < matches@.len() && reports_of(diagnostics@[t]@, pats@, matches@[j]));
        }
    }
}

} // verus!
