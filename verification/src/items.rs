//! The declarations a body is checked against, and the prelude ids the
//! checker needs by name.
//!
//! The prelude does not export its ids, so the only way to find `Bool` is a
//! builtin definition named `Bool`. [`Prelude`] scans the definition table
//! once for a closed list of names, and every predicate below asks it.

use vstd::prelude::*;

use crate::assign::{DefKind, Definition};
use crate::constant::Evaluated;
use crate::syntax::{Literal, LiteralView};
use crate::text::str_eq;
use crate::infer::Span;
use crate::ty::{
    ArgView, DefId, GenericArg, KindView, Ty, TyKind, Types, arg_types, args_view, extends,
    kind_below, operands,
};

verus! {

// ---------------------------------------------------------------------------
// The names looked up
// ---------------------------------------------------------------------------

/// The names the prelude is searched for, and no others.
pub open spec fn wanted_names() -> Seq<Seq<char>> {
    seq![
        "Bool"@, "String"@, "Char"@, "Never"@,
        "I8"@, "I16"@, "I32"@, "I64"@, "U8"@, "U16"@, "U32"@, "U64"@,
        "F16"@, "BF16"@, "F32"@, "F64"@, "Int"@, "Float"@,
        "panic"@, "Iterate"@,
        "Add"@, "Sub"@, "Mul"@, "Div"@, "Rem"@, "Pow"@, "MatMul"@, "Neg"@, "Eq"@, "Ord"@,
        "Index"@, "IndexMutably"@, "Display"@, "print"@, "write"@, "Array"@, "Range"@,
    ]
}

/// The integer primitives.
pub open spec fn integer_names() -> Seq<Seq<char>> {
    seq!["I8"@, "I16"@, "I32"@, "I64"@, "U8"@, "U16"@, "U32"@, "U64"@, "Int"@]
}

/// The floating primitives.
pub open spec fn float_names() -> Seq<Seq<char>> {
    seq!["F16"@, "BF16"@, "F32"@, "F64"@, "Float"@]
}

/// The prelude types a number is definitely not.
pub open spec fn not_numeric_names() -> Seq<Seq<char>> {
    seq!["Bool"@, "String"@, "Char"@, "Never"@]
}

/// The unary output functions.
pub open spec fn output_names() -> Seq<Seq<char>> {
    seq!["print"@, "write"@]
}

/// The views of a list of names.
pub open spec fn names_view(names: Seq<&str>) -> Seq<Seq<char>> {
    names.map_values(|n: &str| n@)
}

fn wanted() -> (names: Vec<&'static str>)
    ensures
        names_view(names@) == wanted_names(),
{
    let names = vec![
        "Bool", "String", "Char", "Never",
        "I8", "I16", "I32", "I64", "U8", "U16", "U32", "U64",
        "F16", "BF16", "F32", "F64", "Int", "Float",
        "panic", "Iterate",
        "Add", "Sub", "Mul", "Div", "Rem", "Pow", "MatMul", "Neg", "Eq", "Ord",
        "Index", "IndexMutably", "Display", "print", "write", "Array", "Range",
    ];
    assert(names_view(names@) =~= wanted_names());
    names
}

fn integers() -> (names: Vec<&'static str>)
    ensures
        names_view(names@) == integer_names(),
{
    let names = vec!["I8", "I16", "I32", "I64", "U8", "U16", "U32", "U64", "Int"];
    assert(names_view(names@) =~= integer_names());
    names
}

fn floats() -> (names: Vec<&'static str>)
    ensures
        names_view(names@) == float_names(),
{
    let names = vec!["F16", "BF16", "F32", "F64", "Float"];
    assert(names_view(names@) =~= float_names());
    names
}

fn not_numeric() -> (names: Vec<&'static str>)
    ensures
        names_view(names@) == not_numeric_names(),
{
    let names = vec!["Bool", "String", "Char", "Never"];
    assert(names_view(names@) =~= not_numeric_names());
    names
}

fn outputs() -> (names: Vec<&'static str>)
    ensures
        names_view(names@) == output_names(),
{
    let names = vec!["print", "write"];
    assert(names_view(names@) =~= output_names());
    names
}

/// Whether `name` is one of `names`.
fn contains_name(names: &Vec<&'static str>, name: &str) -> (r: bool)
    ensures
        r == names_view(names@).contains(name@),
{
    let mut i: usize = 0;
    while i < names.len()
        invariant
            i <= names.len(),
            forall|k: int| 0 <= k < i ==> names@[k]@ != name@,
        decreases names.len() - i,
    {
        if str_eq(names[i], name) {
            assert(names_view(names@)[i as int] == name@);
            return true;
        }
        i = i + 1;
    }
    proof {
        if names_view(names@).contains(name@) {
            let k = choose|k: int| 0 <= k < names_view(names@).len() && names_view(names@)[k] == name@;
            assert(names@[k]@ == name@);
        }
    }
    false
}

// ---------------------------------------------------------------------------
// The table of names found
// ---------------------------------------------------------------------------

/// The id recorded for `name`: the first entry that has it.
pub open spec fn lookup(entries: Seq<(Seq<char>, DefId)>, name: Seq<char>) -> Option<DefId>
    decreases entries.len(),
{
    if entries.len() == 0 {
        None
    } else if entries[0].0 == name {
        Some(entries[0].1)
    } else {
        lookup(entries.drop_first(), name)
    }
}

/// `entries` with `name` recorded as `id`, unless it already is recorded.
pub open spec fn add_name(entries: Seq<(Seq<char>, DefId)>, name: Seq<char>, id: DefId) -> Seq<
    (Seq<char>, DefId),
> {
    if lookup(entries, name) is Some {
        entries
    } else {
        entries.push((name, id))
    }
}

/// Records every alias among `aliased` whose canonical name is `name`, in
/// order.
pub open spec fn add_aliases(
    entries: Seq<(Seq<char>, DefId)>,
    aliased: Seq<(&str, &str)>,
    name: Seq<char>,
    id: DefId,
) -> Seq<(Seq<char>, DefId)>
    decreases aliased.len(),
{
    if aliased.len() == 0 {
        entries
    } else {
        let before = add_aliases(entries, aliased.drop_last(), name, id);
        if aliased.last().1@ == name {
            add_name(before, aliased.last().0@, id)
        } else {
            before
        }
    }
}

/// What a scan of `defs` records: for each builtin definition in order, its
/// name when the name is wanted, and each alias spelling of it.
pub open spec fn scan(defs: Seq<Definition>, aliased: Seq<(&str, &str)>) -> Seq<
    (Seq<char>, DefId),
>
    decreases defs.len(),
{
    if defs.len() == 0 {
        seq![]
    } else {
        let before = scan(defs.drop_last(), aliased);
        let d = defs.last();
        if !d.builtin {
            before
        } else {
            let named = if wanted_names().contains(d.name@) {
                add_name(before, d.name@, d.id)
            } else {
                before
            };
            add_aliases(named, aliased, d.name@, d.id)
        }
    }
}

/// Looking up in a longer table: the old answer, or the new entry's.
proof fn lemma_lookup_push(entries: Seq<(Seq<char>, DefId)>, entry: (Seq<char>, DefId), name: Seq<char>)
    ensures
        lookup(entries.push(entry), name) == (if lookup(entries, name) is Some {
            lookup(entries, name)
        } else if entry.0 == name {
            Some(entry.1)
        } else {
            None
        }),
    decreases entries.len(),
{
    if entries.len() == 0 {
        assert(entries.push(entry)[0] == entry);
        assert(entries.push(entry).drop_first() =~= Seq::<(Seq<char>, DefId)>::empty());
    } else {
        assert(entries.push(entry)[0] == entries[0]);
        assert(entries.push(entry).drop_first() =~= entries.drop_first().push(entry));
        lemma_lookup_push(entries.drop_first(), entry, name);
    }
}

/// The names the prelude was found under, with their ids.
pub struct Prelude {
    names: Vec<(String, DefId)>,
}

impl View for Prelude {
    type V = Seq<(Seq<char>, DefId)>;

    closed spec fn view(&self) -> Seq<(Seq<char>, DefId)> {
        self.names@.map_values(|e: (String, DefId)| (e.0@, e.1))
    }
}

/// The first entry of `names[i..]` recorded under `name`.
fn find_entry(names: &Vec<(String, DefId)>, name: &str) -> (r: Option<DefId>)
    ensures
        r == lookup(names@.map_values(|e: (String, DefId)| (e.0@, e.1)), name@),
{
    let ghost all = names@.map_values(|e: (String, DefId)| (e.0@, e.1));
    let mut i: usize = 0;
    assert(all.skip(0) =~= all);
    while i < names.len()
        invariant
            i <= names.len(),
            all == names@.map_values(|e: (String, DefId)| (e.0@, e.1)),
            lookup(all.skip(i as int), name@) == lookup(all, name@),
        decreases names.len() - i,
    {
        proof {
            assert(all.skip(i as int)[0] == all[i as int]);
            assert(all.skip(i as int).drop_first() =~= all.skip(i + 1));
        }
        if str_eq(names[i].0.as_str(), name) {
            return Some(names[i].1);
        }
        i = i + 1;
    }
    assert(all.skip(i as int).len() == 0);
    None
}

/// Records `name` as `id` unless it is recorded already.
fn record(names: &mut Vec<(String, DefId)>, name: &str, id: DefId)
    ensures
        final(names)@.map_values(|e: (String, DefId)| (e.0@, e.1)) == add_name(
            old(names)@.map_values(|e: (String, DefId)| (e.0@, e.1)),
            name@,
            id,
        ),
{
    let ghost before = old(names)@.map_values(|e: (String, DefId)| (e.0@, e.1));
    if find_entry(names, name).is_none() {
        let owned = name.to_owned();
        names.push((owned, id));
        assert(names@.map_values(|e: (String, DefId)| (e.0@, e.1)) =~= before.push((name@, id)));
    }
}

impl Prelude {
    /// A prelude with no names in it: every predicate answers `false`.
    pub fn empty() -> (p: Prelude)
        ensures
            p@ == Seq::<(Seq<char>, DefId)>::empty(),
    {
        let p = Prelude { names: Vec::new() };
        assert(p@ =~= Seq::<(Seq<char>, DefId)>::empty());
        p
    }

    /// Finds the wanted names among the builtin definitions, first one
    /// first. A primitive with two spellings is one definition: `aliased`
    /// pairs each other spelling with the canonical name the table carries,
    /// and the other spelling is recorded at the same id.
    pub fn of(defs: &[Definition], aliased: &[(&str, &str)]) -> (p: Prelude)
        ensures
            p@ == scan(defs@, aliased@),
    {
        let wanted = wanted();
        let mut names: Vec<(String, DefId)> = Vec::new();
        let mut i: usize = 0;
        assert(names@.map_values(|e: (String, DefId)| (e.0@, e.1)) =~= scan(defs@.take(0), aliased@));
        while i < defs.len()
            invariant
                i <= defs@.len(),
                names_view(wanted@) == wanted_names(),
                names@.map_values(|e: (String, DefId)| (e.0@, e.1)) == scan(
                    defs@.take(i as int),
                    aliased@,
                ),
            decreases defs@.len() - i,
        {
            let d = &defs[i];
            proof {
                assert(defs@.take(i + 1).drop_last() =~= defs@.take(i as int));
                assert(defs@.take(i + 1).last() == defs@[i as int]);
            }
            if d.builtin {
                let ghost before = names@.map_values(|e: (String, DefId)| (e.0@, e.1));
                if contains_name(&wanted, d.name.as_str()) {
                    record(&mut names, d.name.as_str(), d.id);
                }
                let ghost named = names@.map_values(|e: (String, DefId)| (e.0@, e.1));
                assert(named == (if wanted_names().contains(d.name@) {
                    add_name(before, d.name@, d.id)
                } else {
                    before
                }));
                let mut j: usize = 0;
                assert(aliased@.take(0) =~= Seq::<(&str, &str)>::empty());
                while j < aliased.len()
                    invariant
                        j <= aliased@.len(),
                        names@.map_values(|e: (String, DefId)| (e.0@, e.1)) == add_aliases(
                            named,
                            aliased@.take(j as int),
                            d.name@,
                            d.id,
                        ),
                    decreases aliased@.len() - j,
                {
                    proof {
                        assert(aliased@.take(j + 1).drop_last() =~= aliased@.take(j as int));
                        assert(aliased@.take(j + 1).last() == aliased@[j as int]);
                    }
                    let (alias, canonical) = aliased[j];
                    if str_eq(canonical, d.name.as_str()) {
                        record(&mut names, alias, d.id);
                    }
                    j = j + 1;
                }
                assert(aliased@.take(aliased@.len() as int) =~= aliased@);
            }
            i = i + 1;
        }
        assert(defs@.take(defs@.len() as int) =~= defs@);
        Prelude { names }
    }

    /// The definition of a prelude name, if this compilation has one.
    pub fn get(&self, name: &str) -> (r: Option<DefId>)
        ensures
            r == lookup(self@, name@),
    {
        find_entry(&self.names, name)
    }

    /// Whether this compilation has a prelude at all.
    pub fn is_available(&self) -> (r: bool)
        ensures
            r == (lookup(self@, "Bool"@) is Some),
    {
        self.get("Bool").is_some()
    }

    /// The type of a prelude primitive, interned.
    pub fn ty(&self, types: &mut Types, name: &str) -> (r: Option<Ty>)
        requires
            old(types).wf(),
        ensures
            final(types).wf(),
            extends(old(types)@, final(types)@),
            match lookup(self@, name@) {
                None => r is None && final(types)@ == old(types)@,
                Some(def) => r matches Some(t) && final(types).valid(t) && final(types)@[t.0 as int]
                    == (KindView::Named { def, args: seq![] }),
            },
    {
        match self.get(name) {
            None => {
                assert(old(types)@.take(old(types)@.len() as int) =~= old(types)@);
                None
            },
            Some(def) => {
                let args: Vec<GenericArg> = Vec::new();
                assert(args_view(args@) =~= seq![]);
                Some(types.named(def, args))
            },
        }
    }

    /// The integer type an unsuffixed integer literal defaults to.
    pub fn default_int(&self, types: &mut Types) -> (r: Option<Ty>)
        requires
            old(types).wf(),
        ensures
            final(types).wf(),
            extends(old(types)@, final(types)@),
            match lookup(self@, "I64"@) {
                None => r is None && final(types)@ == old(types)@,
                Some(def) => r matches Some(t) && final(types).valid(t) && final(types)@[t.0 as int]
                    == (KindView::Named { def, args: seq![] }),
            },
    {
        self.ty(types, "I64")
    }

    /// The floating type an unsuffixed float literal defaults to.
    pub fn default_float(&self, types: &mut Types) -> (r: Option<Ty>)
        requires
            old(types).wf(),
        ensures
            final(types).wf(),
            extends(old(types)@, final(types)@),
            match lookup(self@, "F64"@) {
                None => r is None && final(types)@ == old(types)@,
                Some(def) => r matches Some(t) && final(types).valid(t) && final(types)@[t.0 as int]
                    == (KindView::Named { def, args: seq![] }),
            },
    {
        self.ty(types, "F64")
    }

    /// Whether a type is this prelude primitive: a named type at its
    /// definition, with no arguments.
    pub fn is(&self, types: &Types, ty: Ty, name: &str) -> (r: bool)
        requires
            lookup(self@, name@) is Some ==> types.valid(ty),
        ensures
            r == is_primitive(self@, types@, ty, name@),
    {
        match self.get(name) {
            None => false,
            Some(def) => match types.kind(ty) {
                TyKind::Named { def: named, args } => *named == def && args.len() == 0,
                _ => false,
            },
        }
    }

    /// Whether a type is one of `names`, asked in order.
    fn is_one_of(&self, types: &Types, ty: Ty, names: &Vec<&'static str>) -> (r: bool)
        requires
            finds_any(self@, names_view(names@)) ==> types.valid(ty),
        ensures
            r == is_any(self@, types@, ty, names_view(names@)),
    {
        let ghost all = names_view(names@);
        let mut i: usize = 0;
        while i < names.len()
            invariant
                i <= names.len(),
                all == names_view(names@),
                finds_any(self@, all) ==> types.valid(ty),
                forall|k: int| 0 <= k < i ==> !is_primitive(self@, types@, ty, #[trigger] all[k]),
            decreases names.len() - i,
        {
            proof {
                if lookup(self@, all[i as int]) is Some {
                    assert(finds_any(self@, all));
                }
            }
            if self.is(types, ty, names[i]) {
                assert(is_primitive(self@, types@, ty, all[i as int]));
                return true;
            }
            i = i + 1;
        }
        false
    }

    pub fn is_never(&self, types: &Types, ty: Ty) -> (r: bool)
        requires
            lookup(self@, "Never"@) is Some ==> types.valid(ty),
        ensures
            r == is_primitive(self@, types@, ty, "Never"@),
    {
        self.is(types, ty, "Never")
    }

    pub fn is_bool(&self, types: &Types, ty: Ty) -> (r: bool)
        requires
            lookup(self@, "Bool"@) is Some ==> types.valid(ty),
        ensures
            r == is_primitive(self@, types@, ty, "Bool"@),
    {
        self.is(types, ty, "Bool")
    }

    /// Whether a type is one of the integer primitives.
    pub fn is_integer(&self, types: &Types, ty: Ty) -> (r: bool)
        requires
            finds_any(self@, integer_names()) ==> types.valid(ty),
        ensures
            r == is_any(self@, types@, ty, integer_names()),
    {
        let names = integers();
        self.is_one_of(types, ty, &names)
    }

    /// Whether a type is one of the floating primitives.
    pub fn is_float(&self, types: &Types, ty: Ty) -> (r: bool)
        requires
            finds_any(self@, float_names()) ==> types.valid(ty),
        ensures
            r == is_any(self@, types@, ty, float_names()),
    {
        let names = floats();
        self.is_one_of(types, ty, &names)
    }

    pub fn is_numeric(&self, types: &Types, ty: Ty) -> (r: bool)
        requires
            finds_any(self@, integer_names()) ==> types.valid(ty),
            finds_any(self@, float_names()) ==> types.valid(ty),
        ensures
            r == (is_any(self@, types@, ty, integer_names()) || is_any(
                self@,
                types@,
                ty,
                float_names(),
            )),
    {
        self.is_integer(types, ty) || self.is_float(types, ty)
    }

    /// Whether this is a prelude type a number is definitely not: a short
    /// closed list, not the complement of [`Prelude::is_numeric`].
    pub fn is_definitely_not_numeric(&self, types: &Types, ty: Ty) -> (r: bool)
        requires
            finds_any(self@, not_numeric_names()) ==> types.valid(ty),
        ensures
            r == is_any(self@, types@, ty, not_numeric_names()),
    {
        let names = not_numeric();
        self.is_one_of(types, ty, &names)
    }

    /// `panic`, which is how a body diverges without a `return`.
    pub fn panic(&self) -> (r: Option<DefId>)
        ensures
            r == lookup(self@, "panic"@),
    {
        self.get("panic")
    }

    /// The name of the unary output function this definition is, if it is
    /// one: `print` or `write`, asked in that order.
    pub fn unary_output(&self, def: DefId) -> (r: Option<&'static str>)
        ensures
            match r {
                None => forall|k: int|
                    0 <= k < output_names().len() ==> lookup(self@, #[trigger] output_names()[k])
                        != Some(def),
                Some(name) => exists|k: int|
                    0 <= k < output_names().len() && output_names()[k] == name@ && lookup(
                        self@,
                        #[trigger] output_names()[k],
                    ) == Some(def) && forall|j: int|
                        0 <= j < k ==> lookup(self@, #[trigger] output_names()[j]) != Some(def),
            },
    {
        let names = outputs();
        let ghost all = names_view(names@);
        let mut i: usize = 0;
        while i < names.len()
            invariant
                i <= names.len(),
                all == names_view(names@),
                all == output_names(),
                forall|k: int| 0 <= k < i ==> lookup(self@, #[trigger] all[k]) != Some(def),
            decreases names.len() - i,
        {
            let name = names[i];
            if self.get(name) == Some(def) {
                assert(all[i as int] == name@);
                return Some(name);
            }
            i = i + 1;
        }
        None
    }
}

/// Whether `ty` is the prelude primitive recorded under `name`.
pub open spec fn is_primitive(
    entries: Seq<(Seq<char>, DefId)>,
    kinds: Seq<KindView>,
    ty: Ty,
    name: Seq<char>,
) -> bool {
    match lookup(entries, name) {
        None => false,
        Some(def) => kinds[ty.0 as int] matches KindView::Named { def: named, args } && named == def
            && args.len() == 0,
    }
}

/// Whether `ty` is the primitive recorded under one of `names`.
pub open spec fn is_any(
    entries: Seq<(Seq<char>, DefId)>,
    kinds: Seq<KindView>,
    ty: Ty,
    names: Seq<Seq<char>>,
) -> bool {
    exists|k: int| 0 <= k < names.len() && is_primitive(entries, kinds, ty, #[trigger] names[k])
}

/// Whether one of `names` is recorded.
pub open spec fn finds_any(entries: Seq<(Seq<char>, DefId)>, names: Seq<Seq<char>>) -> bool {
    exists|k: int| 0 <= k < names.len() && #[trigger] lookup(entries, names[k]) is Some
}


// ---------------------------------------------------------------------------
// The definitions a type mentions
// ---------------------------------------------------------------------------

/// The definition a kind names at its head, when it names one.
pub open spec fn head_definition(k: KindView) -> Option<DefId> {
    match k {
        KindView::Named { def, .. } => Some(def),
        KindView::Object { interface, .. } => Some(interface),
        KindView::Param { def } => Some(def),
        KindView::SelfType { owner } => Some(owner),
        KindView::SelfAssoc { assoc } => Some(assoc),
        _ => None,
    }
}

/// Whether the type at `t` names `d`, at any depth.
pub open spec fn names_definition(kinds: Seq<KindView>, t: int, d: DefId) -> bool
    decreases t + 1,
{
    if t < 0 || t >= kinds.len() {
        false
    } else {
        head_definition(kinds[t]) == Some(d) || exists|k: int|
            0 <= k < operands(kinds[t]).len() && operands(kinds[t])[k].0 < t && names_definition(
                kinds,
                #[trigger] operands(kinds[t])[k].0 as int,
                d,
            )
    }
}

/// Whether the type at `t` holds a reference whose referent names `d`.
/// `under` is whether `t` itself is already under a reference: a borrow
/// contributes what it borrows, and a named type on its own contributes only
/// what its type arguments borrow.
pub open spec fn refers_to(kinds: Seq<KindView>, t: int, under: bool, d: DefId) -> bool
    decreases t + 1,
{
    if t < 0 || t >= kinds.len() {
        false
    } else {
        let inner_under = match kinds[t] {
            KindView::Borrowed { .. } => true,
            _ => under,
        };
        let walks = match kinds[t] {
            KindView::Borrowed { .. } | KindView::Nullable(_) | KindView::Tuple(_)
            | KindView::Closure { .. } => true,
            _ => !under,
        };
        if walks {
            exists|k: int|
                0 <= k < operands(kinds[t]).len() && operands(kinds[t])[k].0 < t && refers_to(
                    kinds,
                    #[trigger] operands(kinds[t])[k].0 as int,
                    inner_under,
                    d,
                )
        } else {
            names_definition(kinds, t, d)
        }
    }
}

/// Whether an argument is a type that names `d`.
pub open spec fn arg_names_definition(kinds: Seq<KindView>, a: ArgView, d: DefId) -> bool {
    match a {
        ArgView::Type(u) => names_definition(kinds, u.0 as int, d),
        _ => false,
    }
}

/// A type argument of the list is among the list's types, and back.
pub(crate) proof fn lemma_arg_types_member(args: Seq<ArgView>, t: Ty)
    ensures
        arg_types(args).contains(t) <==> exists|j: int|
            0 <= j < args.len() && #[trigger] args[j] == ArgView::Type(t),
    decreases args.len(),
{
    if args.len() > 0 {
        let rest = args.drop_last();
        lemma_arg_types_member(rest, t);
        if exists|j: int| 0 <= j < rest.len() && #[trigger] rest[j] == ArgView::Type(t) {
            let j = choose|j: int| 0 <= j < rest.len() && #[trigger] rest[j] == ArgView::Type(t);
            assert(args[j] == rest[j]);
        }
        if exists|j: int| 0 <= j < args.len() && #[trigger] args[j] == ArgView::Type(t) {
            let j = choose|j: int| 0 <= j < args.len() && #[trigger] args[j] == ArgView::Type(t);
            if j < rest.len() {
                assert(rest[j] == args[j]);
            }
        }
        match args.last() {
            ArgView::Type(u) => {
                assert(arg_types(args) == arg_types(rest).push(u));
                assert(arg_types(args)[arg_types(args).len() - 1] == u);
                if arg_types(args).contains(t) {
                    let k = choose|k: int| 0 <= k < arg_types(args).len() && arg_types(args)[k] == t;
                    if k < arg_types(rest).len() {
                        assert(arg_types(rest)[k] == t);
                    }
                }
                if arg_types(rest).contains(t) {
                    let k = choose|k: int| 0 <= k < arg_types(rest).len() && arg_types(rest)[k] == t;
                    assert(arg_types(args)[k] == t);
                }
                if u == t {
                    assert(args[args.len() - 1] == ArgView::Type(t));
                }
            },
            _ => {
                assert(arg_types(args) == arg_types(rest));
            },
        }
    }
}

/// The type arguments of a well-formed table's named type are its operands.
pub(crate) proof fn lemma_arg_operand(args: Seq<ArgView>, j: int, t: Ty)
    requires
        0 <= j < args.len(),
        args[j] == ArgView::Type(t),
    ensures
        exists|k: int| 0 <= k < arg_types(args).len() && arg_types(args)[k] == t,
{
    lemma_arg_types_member(args, t);
    assert(arg_types(args).contains(t));
}

/// Whether one of the operands of the type at `t` names `d`.
pub open spec fn operand_names_definition(kinds: Seq<KindView>, t: int, d: DefId) -> bool {
    exists|k: int|
        0 <= k < operands(kinds[t]).len() && operands(kinds[t])[k].0 < t && names_definition(
            kinds,
            #[trigger] operands(kinds[t])[k].0 as int,
            d,
        )
}

/// Whether one of `tys`, each below `bound`, names `d`.
pub open spec fn list_names_definition(kinds: Seq<KindView>, tys: Seq<Ty>, bound: int, d: DefId) -> bool {
    exists|k: int|
        0 <= k < tys.len() && (#[trigger] tys[k]).0 < bound && names_definition(kinds, tys[k].0 as int, d)
}

/// Over a list that is the operands of `t`, the two say the same.
proof fn lemma_list_is_operands(kinds: Seq<KindView>, t: int, tys: Seq<Ty>, d: DefId)
    requires
        tys == operands(kinds[t]),
    ensures
        list_names_definition(kinds, tys, t, d) == operand_names_definition(kinds, t, d),
{
    if list_names_definition(kinds, tys, t, d) {
        let k = choose|k: int|
            0 <= k < tys.len() && (#[trigger] tys[k]).0 < t && names_definition(kinds, tys[k].0 as int, d);
        assert(names_definition(kinds, operands(kinds[t])[k].0 as int, d));
    }
    if operand_names_definition(kinds, t, d) {
        let k = choose|k: int|
            0 <= k < operands(kinds[t]).len() && operands(kinds[t])[k].0 < t && names_definition(
                kinds,
                #[trigger] operands(kinds[t])[k].0 as int,
                d,
            );
        assert(tys[k] == operands(kinds[t])[k]);
    }
}

/// `seq.push(x)` holds what `seq` held, and `x`.
pub(crate) proof fn lemma_push_contains<A>(s: Seq<A>, x: A, y: A)
    ensures
        s.push(x).contains(y) <==> (s.contains(y) || y == x),
{
    if s.push(x).contains(y) && y != x {
        let k = choose|k: int| 0 <= k < s.push(x).len() && s.push(x)[k] == y;
        assert(s[k] == y);
    }
    if s.contains(y) {
        let k = choose|k: int| 0 <= k < s.len() && s[k] == y;
        assert(s.push(x)[k] == y);
    }
    if y == x {
        assert(s.push(x)[s.len() as int] == y);
    }
}

/// Appends every definition `ty` names, at any depth.
fn collect_definitions(types: &Types, ty: Ty, out: &mut Vec<DefId>)
    requires
        types.wf(),
        types.valid(ty),
    ensures
        forall|d: DefId|
            #[trigger] final(out)@.contains(d) <==> old(out)@.contains(d) || names_definition(
                types@,
                ty.0 as int,
                d,
            ),
    decreases ty.0 + 1, 0nat,
{
    let ghost kinds = types@;
    let ghost t = ty.0 as int;
    let ghost before = out@;
    proof {
        assert(kind_below(kinds[t], t));
        assert forall|d: DefId| names_definition(kinds, t, d) == (head_definition(kinds[t]) == Some(
            d,
        ) || operand_names_definition(kinds, t, d)) by {}
    }
    match types.kind(ty) {
        TyKind::Named { def, args } | TyKind::Object { interface: def, args } => {
            out.push(*def);
            let ghost pushed = out@;
            collect_definitions_args(types, args, ty, out);
            proof {
                assert forall|d: DefId| #[trigger] out@.contains(d) <==> before.contains(d)
                    || names_definition(kinds, t, d) by {
                    lemma_push_contains(before, *def, d);
                }
            }
        },
        TyKind::Param { def } | TyKind::SelfType { owner: def } | TyKind::SelfAssoc {
            assoc: def,
        } => {
            out.push(*def);
            proof {
                assert(operands(kinds[t]) =~= Seq::<Ty>::empty());
                assert forall|d: DefId| #[trigger] out@.contains(d) <==> before.contains(d)
                    || names_definition(kinds, t, d) by {
                    lemma_push_contains(before, *def, d);
                }
            }
        },
        TyKind::Borrowed { inner, .. } | TyKind::Nullable(inner) => {
            let inner = *inner;
            proof {
                assert(operands(kinds[t]) =~= seq![inner]);
                assert(operands(kinds[t])[0] == inner);
            }
            collect_definitions(types, inner, out);
            proof {
                assert forall|d: DefId| names_definition(kinds, t, d) <==> names_definition(
                    kinds,
                    inner.0 as int,
                    d,
                ) by {
                    if names_definition(kinds, inner.0 as int, d) {
                        assert(operands(kinds[t])[0] == inner);
                    }
                }
            }
        },
        TyKind::Tuple(elements) => {
            assert(operands(kinds[t]) == elements@);
            collect_definitions_list(types, elements, ty, out);
            proof {
                assert forall|d: DefId| #[trigger] out@.contains(d) <==> before.contains(d)
                    || names_definition(kinds, t, d) by {
                    lemma_list_is_operands(kinds, t, elements@, d);
                }
            }
        },
        TyKind::Closure { params, ret } => {
            let ghost ops = operands(kinds[t]);
            proof {
                assert(ops =~= params@.push(*ret));
                assert forall|k: int| 0 <= k < params@.len() implies (#[trigger] params@[k]).0 < t by {
                    assert(ops[k] == params@[k]);
                }
            }
            collect_definitions_list(types, params, ty, out);
            let r = *ret;
            assert(ops[params@.len() as int] == r);
            collect_definitions(types, r, out);
            proof {
                assert forall|d: DefId| #[trigger] out@.contains(d) <==> before.contains(d)
                    || names_definition(kinds, t, d) by {
                    lemma_list_is_operands(kinds, t, ops, d);
                    if list_names_definition(kinds, ops, t, d) {
                        let k = choose|k: int|
                            0 <= k < ops.len() && (#[trigger] ops[k]).0 < t && names_definition(
                                kinds,
                                ops[k].0 as int,
                                d,
                            );
                        if k < params@.len() {
                            assert(ops[k] == params@[k]);
                            assert(list_names_definition(kinds, params@, t, d));
                        }
                    }
                    if list_names_definition(kinds, params@, t, d) {
                        let k = choose|k: int|
                            0 <= k < params@.len() && (#[trigger] params@[k]).0 < t
                                && names_definition(kinds, params@[k].0 as int, d);
                        assert(ops[k] == params@[k]);
                        assert(list_names_definition(kinds, ops, t, d));
                    }
                    if names_definition(kinds, r.0 as int, d) {
                        assert(list_names_definition(kinds, ops, t, d));
                    }
                }
            }
        },
        TyKind::Error | TyKind::Unit => {
            assert(operands(kinds[t]) =~= Seq::<Ty>::empty());
        },
    }
}

/// Appends every definition the types of `tys` name, each of which is below
/// `bound`.
fn collect_definitions_list(types: &Types, tys: &Vec<Ty>, bound: Ty, out: &mut Vec<DefId>)
    requires
        types.wf(),
        types.valid(bound),
        forall|k: int| 0 <= k < tys@.len() ==> (#[trigger] tys@[k]).0 < bound.0,
    ensures
        forall|d: DefId|
            #[trigger] final(out)@.contains(d) <==> old(out)@.contains(d) || list_names_definition(
                types@,
                tys@,
                bound.0 as int,
                d,
            ),
    decreases bound.0, 1nat,
{
    let ghost kinds = types@;
    let mut i: usize = 0;
    while i < tys.len()
        invariant
            types.wf(),
            types.valid(bound),
            kinds == types@,
            i <= tys@.len(),
            forall|k: int| 0 <= k < tys@.len() ==> (#[trigger] tys@[k]).0 < bound.0,
            forall|d: DefId|
                #[trigger] out@.contains(d) <==> old(out)@.contains(d) || list_names_definition(
                    kinds,
                    tys@.take(i as int),
                    bound.0 as int,
                    d,
                ),
        decreases tys@.len() - i,
    {
        let ghost before = out@;
        let t = tys[i];
        collect_definitions(types, t, out);
        proof {
            assert(tys@.take(i + 1) =~= tys@.take(i as int).push(t));
            assert forall|d: DefId| #[trigger] out@.contains(d) <==> old(out)@.contains(d)
                || list_names_definition(kinds, tys@.take(i + 1), bound.0 as int, d) by {
                let prefix = tys@.take(i as int);
                let longer = tys@.take(i + 1);
                if list_names_definition(kinds, longer, bound.0 as int, d) {
                    let k = choose|k: int|
                        0 <= k < longer.len() && (#[trigger] longer[k]).0 < bound.0
                            && names_definition(kinds, longer[k].0 as int, d);
                    if k < i {
                        assert(prefix[k] == longer[k]);
                        assert(list_names_definition(kinds, prefix, bound.0 as int, d));
                    }
                }
                if list_names_definition(kinds, prefix, bound.0 as int, d) {
                    let k = choose|k: int|
                        0 <= k < prefix.len() && (#[trigger] prefix[k]).0 < bound.0
                            && names_definition(kinds, prefix[k].0 as int, d);
                    assert(longer[k] == prefix[k]);
                }
                if names_definition(kinds, t.0 as int, d) {
                    assert(longer[i as int] == t);
                }
            }
        }
        i = i + 1;
    }
    assert(tys@.take(tys@.len() as int) =~= tys@);
}

/// Appends every definition the type arguments of `args` name, where `args`
/// are the arguments of the type at `bound`.
fn collect_definitions_args(types: &Types, args: &Vec<GenericArg>, bound: Ty, out: &mut Vec<DefId>)
    requires
        types.wf(),
        types.valid(bound),
        operands(types@[bound.0 as int]) == arg_types(args_view(args@)),
    ensures
        forall|d: DefId|
            #[trigger] final(out)@.contains(d) <==> old(out)@.contains(d)
                || operand_names_definition(types@, bound.0 as int, d),
    decreases bound.0, 1nat,
{
    let ghost kinds = types@;
    let ghost b = bound.0 as int;
    let ghost av = args_view(args@);
    proof {
        assert(kind_below(kinds[b], b));
    }
    let mut i: usize = 0;
    while i < args.len()
        invariant
            types.wf(),
            types.valid(bound),
            kinds == types@,
            b == bound.0,
            av == args_view(args@),
            operands(kinds[b]) == arg_types(av),
            kind_below(kinds[b], b),
            i <= args@.len(),
            forall|d: DefId|
                #[trigger] out@.contains(d) <==> old(out)@.contains(d) || exists|j: int|
                    0 <= j < i && arg_names_definition(kinds, #[trigger] av[j], d),
        decreases args@.len() - i,
    {
        match &args[i] {
            GenericArg::Type(u) => {
                let u = *u;
                proof {
                    assert(av[i as int] == ArgView::Type(u));
                    lemma_arg_operand(av, i as int, u);
                    let k = choose|k: int| 0 <= k < arg_types(av).len() && arg_types(av)[k] == u;
                    assert(operands(kinds[b])[k] == u);
                }
                collect_definitions(types, u, out);
                proof {
                    assert forall|d: DefId| #[trigger] out@.contains(d) <==> old(out)@.contains(d)
                        || exists|j: int| 0 <= j < i + 1 && arg_names_definition(kinds, #[trigger] av[j], d) by {
                        if names_definition(kinds, u.0 as int, d) {
                            assert(arg_names_definition(kinds, av[i as int], d));
                        }
                        if exists|j: int| 0 <= j < i + 1 && arg_names_definition(kinds, #[trigger] av[j], d) {
                            let j = choose|j: int| 0 <= j < i + 1 && arg_names_definition(kinds, #[trigger] av[j], d);
                            if j == i {
                                assert(names_definition(kinds, u.0 as int, d));
                            }
                        }
                    }
                }
            },
            _ => {
                proof {
                    assert(!(av[i as int] is Type));
                    assert forall|d: DefId| #[trigger] out@.contains(d) <==> old(out)@.contains(d)
                        || exists|j: int| 0 <= j < i + 1 && arg_names_definition(kinds, #[trigger] av[j], d) by {
                        if exists|j: int| 0 <= j < i + 1 && arg_names_definition(kinds, #[trigger] av[j], d) {
                            let j = choose|j: int| 0 <= j < i + 1 && arg_names_definition(kinds, #[trigger] av[j], d);
                            assert(j != i);
                        }
                    }
                }
            },
        }
        i = i + 1;
    }
    proof {
        assert forall|d: DefId| #[trigger] out@.contains(d) <==> old(out)@.contains(d)
            || operand_names_definition(kinds, b, d) by {
            if exists|j: int| 0 <= j < args@.len() && arg_names_definition(kinds, #[trigger] av[j], d) {
                let j = choose|j: int| 0 <= j < args@.len() && arg_names_definition(kinds, #[trigger] av[j], d);
                if let ArgView::Type(u) = av[j] {
                    lemma_arg_operand(av, j, u);
                    let k = choose|k: int| 0 <= k < arg_types(av).len() && arg_types(av)[k] == u;
                    assert(operands(kinds[b])[k] == u);
                    assert(names_definition(kinds, operands(kinds[b])[k].0 as int, d));
                }
            }
            if operand_names_definition(kinds, b, d) {
                let k = choose|k: int|
                    0 <= k < operands(kinds[b]).len() && operands(kinds[b])[k].0 < b
                        && names_definition(kinds, #[trigger] operands(kinds[b])[k].0 as int, d);
                let u = operands(kinds[b])[k];
                lemma_arg_types_member(av, u);
                assert(arg_types(av)[k] == u);
                assert(arg_types(av).contains(u));
                let j = choose|j: int| 0 <= j < av.len() && #[trigger] av[j] == ArgView::Type(u);
                assert(arg_names_definition(kinds, av[j], d));
            }
        }
    }
}

// ---------------------------------------------------------------------------
// The definitions a type's references point into
// ---------------------------------------------------------------------------

/// Whether one of the operands of the type at `t` refers to `d`, the walk
/// being under a reference or not as `under` says.
pub open spec fn operand_refers_to(kinds: Seq<KindView>, t: int, under: bool, d: DefId) -> bool {
    exists|k: int|
        0 <= k < operands(kinds[t]).len() && operands(kinds[t])[k].0 < t && refers_to(
            kinds,
            #[trigger] operands(kinds[t])[k].0 as int,
            under,
            d,
        )
}

/// Whether one of `tys`, each below `bound`, refers to `d`.
pub open spec fn list_refers_to(kinds: Seq<KindView>, tys: Seq<Ty>, bound: int, under: bool, d: DefId) -> bool {
    exists|k: int|
        0 <= k < tys.len() && (#[trigger] tys[k]).0 < bound && refers_to(kinds, tys[k].0 as int, under, d)
}

/// Whether an argument is a type that refers to `d`.
pub open spec fn arg_refers_to(kinds: Seq<KindView>, a: ArgView, under: bool, d: DefId) -> bool {
    match a {
        ArgView::Type(u) => refers_to(kinds, u.0 as int, under, d),
        _ => false,
    }
}

proof fn lemma_list_refers_is_operands(kinds: Seq<KindView>, t: int, tys: Seq<Ty>, under: bool, d: DefId)
    requires
        tys == operands(kinds[t]),
    ensures
        list_refers_to(kinds, tys, t, under, d) == operand_refers_to(kinds, t, under, d),
{
    if list_refers_to(kinds, tys, t, under, d) {
        let k = choose|k: int|
            0 <= k < tys.len() && (#[trigger] tys[k]).0 < t && refers_to(kinds, tys[k].0 as int, under, d);
        assert(refers_to(kinds, operands(kinds[t])[k].0 as int, under, d));
    }
    if operand_refers_to(kinds, t, under, d) {
        let k = choose|k: int|
            0 <= k < operands(kinds[t]).len() && operands(kinds[t])[k].0 < t && refers_to(
                kinds,
                #[trigger] operands(kinds[t])[k].0 as int,
                under,
                d,
            );
        assert(tys[k] == operands(kinds[t])[k]);
    }
}

/// Appends every definition mentioned underneath a reference in `ty`.
/// `under` is whether the walk is already inside one, so that `borrowed V`
/// contributes `V` and `Array of (borrowed T)` contributes `T`, while a
/// `Map of (K, V)` on its own contributes nothing.
fn collect_referents(types: &Types, ty: Ty, under: bool, out: &mut Vec<DefId>)
    requires
        types.wf(),
        types.valid(ty),
    ensures
        forall|d: DefId|
            #[trigger] final(out)@.contains(d) <==> old(out)@.contains(d) || refers_to(
                types@,
                ty.0 as int,
                under,
                d,
            ),
    decreases ty.0 + 1, 0nat,
{
    let ghost kinds = types@;
    let ghost t = ty.0 as int;
    let ghost before = out@;
    proof {
        assert(kind_below(kinds[t], t));
    }
    match types.kind(ty) {
        TyKind::Borrowed { inner, .. } => {
            let inner = *inner;
            proof {
                assert(operands(kinds[t]) =~= seq![inner]);
                assert(operands(kinds[t])[0] == inner);
            }
            collect_referents(types, inner, true, out);
            proof {
                assert forall|d: DefId| refers_to(kinds, t, under, d) <==> refers_to(
                    kinds,
                    inner.0 as int,
                    true,
                    d,
                ) by {
                    if refers_to(kinds, inner.0 as int, true, d) {
                        assert(operands(kinds[t])[0] == inner);
                    }
                }
            }
        },
        TyKind::Nullable(inner) => {
            let inner = *inner;
            proof {
                assert(operands(kinds[t]) =~= seq![inner]);
                assert(operands(kinds[t])[0] == inner);
            }
            collect_referents(types, inner, under, out);
            proof {
                assert forall|d: DefId| refers_to(kinds, t, under, d) <==> refers_to(
                    kinds,
                    inner.0 as int,
                    under,
                    d,
                ) by {
                    if refers_to(kinds, inner.0 as int, under, d) {
                        assert(operands(kinds[t])[0] == inner);
                    }
                }
            }
        },
        TyKind::Tuple(elements) => {
            assert(operands(kinds[t]) == elements@);
            collect_referents_list(types, elements, ty, under, out);
            proof {
                assert forall|d: DefId| #[trigger] out@.contains(d) <==> before.contains(d)
                    || refers_to(kinds, t, under, d) by {
                    lemma_list_refers_is_operands(kinds, t, elements@, under, d);
                }
            }
        },
        TyKind::Closure { params, ret } => {
            let ghost ops = operands(kinds[t]);
            proof {
                assert(ops =~= params@.push(*ret));
                assert forall|k: int| 0 <= k < params@.len() implies (#[trigger] params@[k]).0 < t by {
                    assert(ops[k] == params@[k]);
                }
            }
            collect_referents_list(types, params, ty, under, out);
            let r = *ret;
            assert(ops[params@.len() as int] == r);
            collect_referents(types, r, under, out);
            proof {
                assert forall|d: DefId| #[trigger] out@.contains(d) <==> before.contains(d)
                    || refers_to(kinds, t, under, d) by {
                    lemma_list_refers_is_operands(kinds, t, ops, under, d);
                    if list_refers_to(kinds, ops, t, under, d) {
                        let k = choose|k: int|
                            0 <= k < ops.len() && (#[trigger] ops[k]).0 < t && refers_to(
                                kinds,
                                ops[k].0 as int,
                                under,
                                d,
                            );
                        if k < params@.len() {
                            assert(ops[k] == params@[k]);
                            assert(list_refers_to(kinds, params@, t, under, d));
                        }
                    }
                    if list_refers_to(kinds, params@, t, under, d) {
                        let k = choose|k: int|
                            0 <= k < params@.len() && (#[trigger] params@[k]).0 < t
                                && refers_to(kinds, params@[k].0 as int, under, d);
                        assert(ops[k] == params@[k]);
                        assert(list_refers_to(kinds, ops, t, under, d));
                    }
                    if refers_to(kinds, r.0 as int, under, d) {
                        assert(list_refers_to(kinds, ops, t, under, d));
                    }
                }
            }
        },
        _ => {
            if under {
                collect_definitions(types, ty, out);
            } else {
                match types.kind(ty) {
                    TyKind::Named { args, .. } | TyKind::Object { args, .. } => {
                        collect_referents_args(types, args, ty, out);
                    },
                    _ => {
                        assert(operands(kinds[t]) =~= Seq::<Ty>::empty());
                    },
                }
            }
        },
    }
}

/// Appends what the references among `tys` point into, each type below
/// `bound`.
fn collect_referents_list(types: &Types, tys: &Vec<Ty>, bound: Ty, under: bool, out: &mut Vec<DefId>)
    requires
        types.wf(),
        types.valid(bound),
        forall|k: int| 0 <= k < tys@.len() ==> (#[trigger] tys@[k]).0 < bound.0,
    ensures
        forall|d: DefId|
            #[trigger] final(out)@.contains(d) <==> old(out)@.contains(d) || list_refers_to(
                types@,
                tys@,
                bound.0 as int,
                under,
                d,
            ),
    decreases bound.0, 1nat,
{
    let ghost kinds = types@;
    let mut i: usize = 0;
    while i < tys.len()
        invariant
            types.wf(),
            types.valid(bound),
            kinds == types@,
            i <= tys@.len(),
            forall|k: int| 0 <= k < tys@.len() ==> (#[trigger] tys@[k]).0 < bound.0,
            forall|d: DefId|
                #[trigger] out@.contains(d) <==> old(out)@.contains(d) || list_refers_to(
                    kinds,
                    tys@.take(i as int),
                    bound.0 as int,
                    under,
                    d,
                ),
        decreases tys@.len() - i,
    {
        let t = tys[i];
        collect_referents(types, t, under, out);
        proof {
            assert(tys@.take(i + 1) =~= tys@.take(i as int).push(t));
            assert forall|d: DefId| #[trigger] out@.contains(d) <==> old(out)@.contains(d)
                || list_refers_to(kinds, tys@.take(i + 1), bound.0 as int, under, d) by {
                let prefix = tys@.take(i as int);
                let longer = tys@.take(i + 1);
                if list_refers_to(kinds, longer, bound.0 as int, under, d) {
                    let k = choose|k: int|
                        0 <= k < longer.len() && (#[trigger] longer[k]).0 < bound.0
                            && refers_to(kinds, longer[k].0 as int, under, d);
                    if k < i {
                        assert(prefix[k] == longer[k]);
                        assert(list_refers_to(kinds, prefix, bound.0 as int, under, d));
                    }
                }
                if list_refers_to(kinds, prefix, bound.0 as int, under, d) {
                    let k = choose|k: int|
                        0 <= k < prefix.len() && (#[trigger] prefix[k]).0 < bound.0
                            && refers_to(kinds, prefix[k].0 as int, under, d);
                    assert(longer[k] == prefix[k]);
                }
                if refers_to(kinds, t.0 as int, under, d) {
                    assert(longer[i as int] == t);
                }
            }
        }
        i = i + 1;
    }
    assert(tys@.take(tys@.len() as int) =~= tys@);
}

/// Appends what the references among the type arguments `args` of the
/// named type or object at `bound` point into, outside any reference.
fn collect_referents_args(types: &Types, args: &Vec<GenericArg>, bound: Ty, out: &mut Vec<DefId>)
    requires
        types.wf(),
        types.valid(bound),
        operands(types@[bound.0 as int]) == arg_types(args_view(args@)),
    ensures
        forall|d: DefId|
            #[trigger] final(out)@.contains(d) <==> old(out)@.contains(d)
                || operand_refers_to(types@, bound.0 as int, false, d),
    decreases bound.0, 1nat,
{
    let ghost kinds = types@;
    let ghost b = bound.0 as int;
    let ghost av = args_view(args@);
    proof {
        assert(kind_below(kinds[b], b));
    }
    let mut i: usize = 0;
    while i < args.len()
        invariant
            types.wf(),
            types.valid(bound),
            kinds == types@,
            b == bound.0,
            av == args_view(args@),
            operands(kinds[b]) == arg_types(av),
            kind_below(kinds[b], b),
            i <= args@.len(),
            forall|d: DefId|
                #[trigger] out@.contains(d) <==> old(out)@.contains(d) || exists|j: int|
                    0 <= j < i && arg_refers_to(kinds, #[trigger] av[j], false, d),
        decreases args@.len() - i,
    {
        match &args[i] {
            GenericArg::Type(u) => {
                let u = *u;
                proof {
                    assert(av[i as int] == ArgView::Type(u));
                    lemma_arg_operand(av, i as int, u);
                    let k = choose|k: int| 0 <= k < arg_types(av).len() && arg_types(av)[k] == u;
                    assert(operands(kinds[b])[k] == u);
                }
                collect_referents(types, u, false, out);
                proof {
                    assert forall|d: DefId| #[trigger] out@.contains(d) <==> old(out)@.contains(d)
                        || exists|j: int| 0 <= j < i + 1 && arg_refers_to(kinds, #[trigger] av[j], false, d) by {
                        if refers_to(kinds, u.0 as int, false, d) {
                            assert(arg_refers_to(kinds, av[i as int], false, d));
                        }
                        if exists|j: int| 0 <= j < i + 1 && arg_refers_to(kinds, #[trigger] av[j], false, d) {
                            let j = choose|j: int| 0 <= j < i + 1 && arg_refers_to(kinds, #[trigger] av[j], false, d);
                            if j == i {
                                assert(refers_to(kinds, u.0 as int, false, d));
                            }
                        }
                    }
                }
            },
            _ => {
                proof {
                    assert(!(av[i as int] is Type));
                    assert forall|d: DefId| #[trigger] out@.contains(d) <==> old(out)@.contains(d)
                        || exists|j: int| 0 <= j < i + 1 && arg_refers_to(kinds, #[trigger] av[j], false, d) by {
                        if exists|j: int| 0 <= j < i + 1 && arg_refers_to(kinds, #[trigger] av[j], false, d) {
                            let j = choose|j: int| 0 <= j < i + 1 && arg_refers_to(kinds, #[trigger] av[j], false, d);
                            assert(j != i);
                        }
                    }
                }
            },
        }
        i = i + 1;
    }
    proof {
        assert forall|d: DefId| #[trigger] out@.contains(d) <==> old(out)@.contains(d)
            || operand_refers_to(kinds, b, false, d) by {
            if exists|j: int| 0 <= j < args@.len() && arg_refers_to(kinds, #[trigger] av[j], false, d) {
                let j = choose|j: int| 0 <= j < args@.len() && arg_refers_to(kinds, #[trigger] av[j], false, d);
                if let ArgView::Type(u) = av[j] {
                    lemma_arg_operand(av, j, u);
                    let k = choose|k: int| 0 <= k < arg_types(av).len() && arg_types(av)[k] == u;
                    assert(operands(kinds[b])[k] == u);
                    assert(refers_to(kinds, operands(kinds[b])[k].0 as int, false, d));
                }
            }
            if operand_refers_to(kinds, b, false, d) {
                let k = choose|k: int|
                    0 <= k < operands(kinds[b]).len() && operands(kinds[b])[k].0 < b
                        && refers_to(kinds, #[trigger] operands(kinds[b])[k].0 as int, false, d);
                let u = operands(kinds[b])[k];
                lemma_arg_types_member(av, u);
                assert(arg_types(av)[k] == u);
                assert(arg_types(av).contains(u));
                let j = choose|j: int| 0 <= j < av.len() && #[trigger] av[j] == ArgView::Type(u);
                assert(arg_refers_to(kinds, av[j], false, d));
            }
        }
    }
}

// ---------------------------------------------------------------------------
// Tables keyed by definition
// ---------------------------------------------------------------------------

/// A table from definitions to what was declared for them, one entry per
/// definition, kept in a hash map by each definition's number, with the
/// definitions in the order they were first declared; inserting at a
/// definition already present replaces it.
pub struct DefMap<V> {
    entries: std::collections::HashMap<u32, V>,
    order: Vec<DefId>,
}

impl<V> View for DefMap<V> {
    type V = Map<DefId, V>;

    closed spec fn view(&self) -> Map<DefId, V> {
        Map::new(|k: DefId| self.entries@.dom().contains(k.0), |k: DefId| self.entries@[k.0])
    }
}

impl<V> DefMap<V> {
    /// The definitions with entries, in the order they were first declared.
    pub closed spec fn order_spec(&self) -> Seq<DefId> {
        self.order@
    }

    /// The table is well formed.
    pub closed spec fn wf(&self) -> bool {
        &&& self.entries@.dom().finite()
        &&& forall|i: int, j: int| 0 <= i < j < self.order@.len() ==> self.order@[i] != self.order@[j]
        &&& forall|k: DefId| #[trigger] self.order@.contains(k) <==> self.entries@.dom().contains(k.0)
    }

    /// A table has finitely many entries.
    pub proof fn lemma_dom_finite(&self)
        requires
            self.wf(),
        ensures
            self@.dom().finite(),
    {
        self.lemma_dom_size();
    }

    /// The definitions with entries are the numbers with entries, one for one.
    proof fn lemma_dom_size(&self)
        requires
            self.wf(),
        ensures
            self@.dom().finite(),
            self@.dom().len() == self.entries@.dom().len(),
    {
        let f = |k: u32| DefId(k);
        assert(vstd::relations::injective_on(f, self.entries@.dom()));
        assert(self.entries@.dom().map(f) =~= self@.dom()) by {
            assert forall|d: DefId| self@.dom().contains(d) implies self.entries@.dom().map(f).contains(d) by {
                assert(f(d.0) == d);
            }
        }
        vstd::set_lib::lemma_map_size(self.entries@.dom(), self@.dom(), f);
    }

    /// An empty table.
    pub fn new() -> (m: DefMap<V>)
        ensures
            m.wf(),
            m@ == Map::<DefId, V>::empty(),
    {
        broadcast use vstd::std_specs::hash::group_hash_axioms;

        let m = DefMap { entries: std::collections::HashMap::new(), order: Vec::new() };
        assert(m@ =~= Map::<DefId, V>::empty());
        m
    }

    /// How many definitions have entries.
    pub fn len(&self) -> (n: usize)
        requires
            self.wf(),
        ensures
            n == self@.dom().len(),
    {
        broadcast use vstd::std_specs::hash::group_hash_axioms;

        proof {
            self.lemma_dom_size();
        }
        self.entries.len()
    }

    /// The definitions that have entries, each once.
    pub fn keys(&self) -> (keys: Vec<DefId>)
        requires
            self.wf(),
        ensures
            keys@ == self.order_spec(),
            forall|i: int, j: int| 0 <= i < j < keys@.len() ==> keys@[i] != keys@[j],
            forall|k: DefId| #[trigger] keys@.contains(k) <==> self@.dom().contains(k),
    {
        let mut keys: Vec<DefId> = Vec::new();
        let mut i: usize = 0;
        while i < self.order.len()
            invariant
                i <= self.order@.len(),
                keys@ == self.order@.take(i as int),
            decreases self.order@.len() - i,
        {
            keys.push(self.order[i]);
            assert(keys@ =~= self.order@.take(i + 1));
            i = i + 1;
        }
        assert(keys@ =~= self.order@);
        keys
    }

    /// What was declared for `key`.
    pub fn get(&self, key: DefId) -> (r: Option<&V>)
        requires
            self.wf(),
        ensures
            match r {
                None => !self@.dom().contains(key),
                Some(v) => self@.dom().contains(key) && self@[key] == *v,
            },
    {
        broadcast use vstd::std_specs::hash::group_hash_axioms;

        self.entries.get(&key.0)
    }

    /// Declares `value` for `key`, replacing what was there.
    pub fn insert(&mut self, key: DefId, value: V)
        requires
            old(self).wf(),
        ensures
            final(self).wf(),
            final(self)@ == old(self)@.insert(key, value),
    {
        broadcast use vstd::std_specs::hash::group_hash_axioms;

        let present = self.entries.contains_key(&key.0);
        assert(present == old(self).entries@.dom().contains(key.0));
        self.entries.insert(key.0, value);
        assert(self.entries@ == old(self).entries@.insert(key.0, value));
        if !present {
            self.order.push(key);
            proof {
                assert forall|k: DefId| #[trigger] self.order@.contains(k) <==> self.entries@.dom().contains(k.0) by {
                    assert(self.order@ == old(self).order@.push(key));
                    if self.order@.contains(k) && k != key {
                        let i = choose|i: int| 0 <= i < self.order@.len() && self.order@[i] == k;
                        assert(i < old(self).order@.len());
                        assert(old(self).order@[i] == k);
                        assert(old(self).order@.contains(k));
                        assert(old(self).entries@.dom().contains(k.0));
                    }
                    if k != key && self.entries@.dom().contains(k.0) {
                        assert(k.0 != key.0);
                        assert(old(self).order@.contains(k));
                        let i = choose|i: int| 0 <= i < old(self).order@.len() && old(self).order@[i] == k;
                        assert(self.order@[i] == k);
                    }
                    if k == key {
                        assert(self.order@[self.order@.len() - 1] == k);
                    }
                }
                assert(!old(self).order@.contains(key));
            }
        }
        proof {
            assert(self@ =~= old(self)@.insert(key, value));
        }
    }
}

// ---------------------------------------------------------------------------
// Declarations
// ---------------------------------------------------------------------------

/// One parameter of a declared function.
#[derive(Debug, Clone, Copy)]
pub struct Param {
    pub def: DefId,
    pub ty: Ty,
    pub span: Span,
}

/// One obligation a call site owes: a generic parameter of the callee, an
/// interface it was declared to satisfy, and where the bound was written.
/// The parameter-list and `where`-clause spellings are one list.
#[derive(Debug, Clone, Copy)]
pub struct ParamBound {
    pub param: DefId,
    pub interface: DefId,
    pub span: Span,
}

/// A function's signature, lowered.
#[derive(Debug)]
pub struct Signature {
    pub def: DefId,
    /// The generic parameters as declared, by definition.
    pub generics: Vec<DefId>,
    /// What each of those parameters must implement.
    pub bounds: Vec<ParamBound>,
    /// The receiver's definition, for a method. Its type is the block's
    /// `Self`.
    pub self_param: Option<DefId>,
    pub params: Vec<Param>,
    /// The unit type when the declaration writes no return type.
    pub ret: Ty,
    /// The implementation or interface block a method belongs to.
    pub owner: Option<DefId>,
    pub has_body: bool,
    pub span: Span,
}

impl Signature {
    /// Whether the function can return to its caller at all: it does not
    /// return `Never`.
    pub fn can_return(&self, prelude: &Prelude, types: &Types) -> (r: bool)
        requires
            lookup(prelude@, "Never"@) is Some ==> types.valid(self.ret),
        ensures
            r == !is_primitive(prelude@, types@, self.ret, "Never"@),
    {
        !prelude.is_never(types, self.ret)
    }
}

/// A record's fields, lowered, in declaration order.
#[derive(Debug)]
pub struct Record {
    pub def: DefId,
    pub generics: Vec<DefId>,
    pub fields: Vec<(DefId, Ty)>,
}

/// One variant of a choice type, with its positional payload and the choice
/// type's own generic parameters, since a use names the variant and never
/// the type.
#[derive(Debug)]
pub struct Variant {
    pub def: DefId,
    pub choice: DefId,
    pub generics: Vec<DefId>,
    pub payload: Vec<Ty>,
}

/// The types a declared callee's arguments have, in argument order: the
/// receiver first for a method, at its block's `Self` or the error type when
/// the block has none.
pub open spec fn argument_types(sig: Signature, self_ty: Option<Ty>) -> Seq<Ty> {
    let receiver: Seq<Ty> = if sig.self_param is Some {
        seq![
            match self_ty {
                Some(t) => t,
                None => Ty(0),
            },
        ]
    } else {
        seq![]
    };
    receiver + sig.params@.map_values(|p: Param| p.ty)
}

/// Whether a reference in the type at `ret` points into a definition that
/// the type at `param` names.
pub open spec fn shares_referent(kinds: Seq<KindView>, ret: Ty, param: Ty) -> bool {
    exists|d: DefId| refers_to(kinds, ret.0 as int, false, d) && names_definition(kinds, param.0 as int, d)
}

/// The indices among `params[..n]` whose types share a referent with `ret`.
pub open spec fn sharing_indices(kinds: Seq<KindView>, ret: Ty, params: Seq<Ty>, n: int) -> Seq<usize>
    decreases n,
{
    if n <= 0 {
        seq![]
    } else {
        let before = sharing_indices(kinds, ret, params, n - 1);
        if shares_referent(kinds, ret, params[n - 1]) {
            before.push((n - 1) as usize)
        } else {
            before
        }
    }
}

/// Which arguments a body-less callee's returned references may point into:
/// every one whose type names a definition that a reference in the return
/// type points into; every argument when none does; no argument when the
/// return holds no reference.
pub open spec fn borrow_sources_of(kinds: Seq<KindView>, sig: Signature, self_ty: Option<Ty>) -> Option<Seq<usize>> {
    if sig.has_body {
        None
    } else if !(exists|d: DefId| refers_to(kinds, sig.ret.0 as int, false, d)) {
        Some(seq![])
    } else {
        let params = argument_types(sig, self_ty);
        let sharing = sharing_indices(kinds, sig.ret, params, params.len() as int);
        if sharing.len() == 0 {
            Some(Seq::new(params.len(), |i: int| i as usize))
        } else {
            Some(sharing)
        }
    }
}

/// The ids in strictly increasing order.
pub open spec fn increasing(ids: Seq<DefId>) -> bool {
    forall|i: int, j: int| 0 <= i < j < ids.len() ==> (#[trigger] ids[i]).0 < (#[trigger] ids[j]).0
}

// ---------------------------------------------------------------------------
// The bounds a signature declares
// ---------------------------------------------------------------------------

/// An interface written as a bound, with where it was written; `interface`
/// is what its path resolved to, `None` when the bound is not a path.
#[derive(Debug, Clone, Copy)]
pub struct Bound {
    pub interface: Option<Res>,
    pub span: Span,
}

/// What a generic parameter is declared as.
#[derive(Debug)]
pub enum GenericParamKind {
    /// A type parameter, with the bounds written beside it.
    Type { bounds: Vec<Bound> },
    /// A const parameter, which takes no bounds.
    Const,
}

/// One generic parameter as declared.
#[derive(Debug)]
pub struct GenericParam {
    pub def: DefId,
    pub kind: GenericParamKind,
}

/// The type a `where` predicate constrains: a path, with the resolution of
/// its name and how many generic arguments it wrote, or anything else.
#[derive(Debug, Clone, Copy)]
pub enum PredicateTarget {
    Path { res: Res, args: usize },
    Other,
}

/// One `where` predicate: a type and the bounds it must meet.
#[derive(Debug)]
pub struct WherePredicate {
    pub ty: PredicateTarget,
    pub bounds: Vec<Bound>,
}

/// The bounds of `param` whose interface resolved to a definition, in order.
pub open spec fn resolved_bounds(param: DefId, bounds: Seq<Bound>) -> Seq<ParamBound>
    decreases bounds.len(),
{
    if bounds.len() == 0 {
        seq![]
    } else {
        let rest = resolved_bounds(param, bounds.drop_last());
        match bounds.last().interface {
            Some(Res::Def(interface)) => rest.push(ParamBound { param, interface, span: bounds.last().span }),
            _ => rest,
        }
    }
}

/// The bounds written in a parameter list, parameter by parameter.
pub open spec fn listed_bounds(generics: Seq<GenericParam>) -> Seq<ParamBound>
    decreases generics.len(),
{
    if generics.len() == 0 {
        seq![]
    } else {
        let rest = listed_bounds(generics.drop_last());
        match generics.last().kind {
            GenericParamKind::Type { bounds } => rest + resolved_bounds(generics.last().def, bounds@),
            GenericParamKind::Const => rest,
        }
    }
}

/// Whether the list declares a parameter at `def`.
pub open spec fn declares_param(generics: Seq<GenericParam>, def: DefId) -> bool {
    exists|i: int| 0 <= i < generics.len() && (#[trigger] generics[i]).def == def
}

/// The bounds `where` predicates put on the list's own parameters: a
/// predicate on anything else, or on a parameter written with arguments,
/// constrains nothing here.
pub open spec fn where_bounds(generics: Seq<GenericParam>, predicates: Seq<WherePredicate>) -> Seq<ParamBound>
    decreases predicates.len(),
{
    if predicates.len() == 0 {
        seq![]
    } else {
        let rest = where_bounds(generics, predicates.drop_last());
        let last = predicates.last();
        match last.ty {
            PredicateTarget::Path { res: Res::Def(def), args } => if args == 0 && declares_param(generics, def) {
                rest + resolved_bounds(def, last.bounds@)
            } else {
                rest
            },
            _ => rest,
        }
    }
}

/// Appends the bounds of `param` whose interface resolved.
fn push_bounds(out: &mut Vec<ParamBound>, param: DefId, bounds: &Vec<Bound>)
    ensures
        final(out)@ == old(out)@ + resolved_bounds(param, bounds@),
{
    let mut k: usize = 0;
    while k < bounds.len()
        invariant
            k <= bounds@.len(),
            out@ == old(out)@ + resolved_bounds(param, bounds@.take(k as int)),
        decreases bounds@.len() - k,
    {
        let bound = bounds[k];
        proof {
            assert(bounds@.take(k + 1).drop_last() =~= bounds@.take(k as int));
            assert(bounds@.take(k + 1).last() == bound);
        }
        if let Some(Res::Def(interface)) = bound.interface {
            out.push(ParamBound { param, interface, span: bound.span });
        }
        proof {
            assert(out@ =~= old(out)@ + resolved_bounds(param, bounds@.take(k + 1)));
        }
        k = k + 1;
    }
    assert(bounds@.take(k as int) =~= bounds@);
}

/// Every bound a generic function declares on its own parameters: those in
/// its parameter list first, then those its `where` clause puts on them.
pub fn param_bounds(generics: &[GenericParam], where_clause: &[WherePredicate]) -> (out: Vec<ParamBound>)
    ensures
        out@ == listed_bounds(generics@) + where_bounds(generics@, where_clause@),
{
    let mut out: Vec<ParamBound> = Vec::new();
    let mut i: usize = 0;
    while i < generics.len()
        invariant
            i <= generics@.len(),
            out@ == listed_bounds(generics@.take(i as int)),
        decreases generics@.len() - i,
    {
        proof {
            assert(generics@.take(i + 1).drop_last() =~= generics@.take(i as int));
            assert(generics@.take(i + 1).last() == generics@[i as int]);
        }
        if let GenericParamKind::Type { bounds } = &generics[i].kind {
            push_bounds(&mut out, generics[i].def, bounds);
        }
        i = i + 1;
    }
    assert(generics@.take(i as int) =~= generics@);
    let ghost listed = out@;
    let mut p: usize = 0;
    while p < where_clause.len()
        invariant
            p <= where_clause@.len(),
            out@ == listed + where_bounds(generics@, where_clause@.take(p as int)),
        decreases where_clause@.len() - p,
    {
        let predicate = &where_clause[p];
        proof {
            assert(where_clause@.take(p + 1).drop_last() =~= where_clause@.take(p as int));
            assert(where_clause@.take(p + 1).last() == *predicate);
        }
        if let PredicateTarget::Path { res: Res::Def(def), args } = predicate.ty {
            if args == 0 {
                let mut declared = false;
                let mut g: usize = 0;
                while g < generics.len()
                    invariant
                        g <= generics@.len(),
                        declared == exists|j: int| 0 <= j < g && (#[trigger] generics@[j]).def == def,
                    decreases generics@.len() - g,
                {
                    if generics[g].def == def {
                        declared = true;
                    }
                    g = g + 1;
                }
                if declared {
                    let ghost before = out@;
                    push_bounds(&mut out, def, &predicate.bounds);
                    proof {
                        assert(out@ =~= listed + where_bounds(generics@, where_clause@.take(p + 1)));
                    }
                }
            }
        }
        p = p + 1;
    }
    assert(where_clause@.take(p as int) =~= where_clause@);
    out
}

/// The definitions of `order` whose variant belongs to `choice`, in order.
pub open spec fn variant_keys(order: Seq<DefId>, variants: Map<DefId, Variant>, choice: DefId) -> Seq<DefId>
    decreases order.len(),
{
    if order.len() == 0 {
        seq![]
    } else {
        let rest = variant_keys(order.drop_last(), variants, choice);
        if variants[order.last()].choice == choice {
            rest.push(order.last())
        } else {
            rest
        }
    }
}

/// Every declaration a body can be checked against.
pub struct Declarations {
    fns: DefMap<Signature>,
    records: DefMap<Record>,
    variants: DefMap<Variant>,
    consts: DefMap<Ty>,
    const_values: DefMap<Literal>,
    self_types: DefMap<Ty>,
    implemented: DefMap<DefId>,
    implemented_args: DefMap<Vec<GenericArg>>,
    interface_generics: DefMap<Vec<DefId>>,
    block_generics: DefMap<Vec<DefId>>,
    prelude: Prelude,
}

impl Declarations {
    /// The signatures, by function.
    pub closed spec fn signatures(&self) -> Map<DefId, Signature> {
        self.fns@
    }

    /// The records, by definition.
    pub closed spec fn records(&self) -> Map<DefId, Record> {
        self.records@
    }

    /// The variants, by definition.
    pub closed spec fn variants(&self) -> Map<DefId, Variant> {
        self.variants@
    }

    /// The constants' types, by definition.
    pub closed spec fn const_types(&self) -> Map<DefId, Ty> {
        self.consts@
    }

    /// The literal each constant denotes, where its initialiser is one and
    /// agrees with its type.
    pub closed spec fn const_values(&self) -> Map<DefId, LiteralView> {
        self.const_values@.map_values(|l: Literal| l@)
    }

    /// What `Self` means inside each implementation or interface block.
    pub closed spec fn self_types(&self) -> Map<DefId, Ty> {
        self.self_types@
    }

    /// The interface each implementation block implements, when it names one.
    pub closed spec fn implemented(&self) -> Map<DefId, DefId> {
        self.implemented@
    }

    /// The arguments each such block wrote for its interface, when it wrote
    /// any.
    pub closed spec fn implemented_args(&self) -> Map<DefId, Seq<ArgView>> {
        self.implemented_args@.map_values(|args: Vec<GenericArg>| args_view(args@))
    }

    /// Each interface's own generic parameters, when it declares any.
    pub closed spec fn interface_generics(&self) -> Map<DefId, Seq<DefId>> {
        self.interface_generics@.map_values(|g: Vec<DefId>| g@)
    }

    /// The generic parameters each implementation block declares.
    pub closed spec fn block_generics_map(&self) -> Map<DefId, Seq<DefId>> {
        self.block_generics@.map_values(|g: Vec<DefId>| g@)
    }

    /// The prelude ids.
    pub closed spec fn prelude_names(&self) -> Seq<(Seq<char>, DefId)> {
        self.prelude@
    }

    /// Each table holds one entry per definition, and a function, record or
    /// variant is filed under its own definition.
    pub closed spec fn wf(&self) -> bool {
        &&& self.fns.wf()
        &&& self.records.wf()
        &&& self.variants.wf()
        &&& self.consts.wf()
        &&& self.const_values.wf()
        &&& self.self_types.wf()
        &&& self.implemented.wf()
        &&& self.implemented_args.wf()
        &&& self.interface_generics.wf()
        &&& self.block_generics.wf()
        &&& forall|d: DefId| #[trigger] self.fns@.dom().contains(d) ==> self.fns@[d].def == d
        &&& forall|d: DefId| #[trigger] self.records@.dom().contains(d) ==> self.records@[d].def == d
        &&& forall|d: DefId| #[trigger] self.variants@.dom().contains(d) ==> self.variants@[d].def == d
    }

    /// No declarations yet, over the given prelude.
    pub fn new(prelude: Prelude) -> (decls: Declarations)
        ensures
            decls.wf(),
            decls.prelude_names() == prelude@,
            decls.signatures() == Map::<DefId, Signature>::empty(),
            decls.records() == Map::<DefId, Record>::empty(),
            decls.variants() == Map::<DefId, Variant>::empty(),
            decls.const_types() == Map::<DefId, Ty>::empty(),
            decls.const_values() == Map::<DefId, LiteralView>::empty(),
            decls.self_types() == Map::<DefId, Ty>::empty(),
            decls.implemented() == Map::<DefId, DefId>::empty(),
            decls.implemented_args() == Map::<DefId, Seq<ArgView>>::empty(),
            decls.interface_generics() == Map::<DefId, Seq<DefId>>::empty(),
            decls.block_generics_map() == Map::<DefId, Seq<DefId>>::empty(),
    {
        let decls = Declarations {
            fns: DefMap::new(),
            records: DefMap::new(),
            variants: DefMap::new(),
            consts: DefMap::new(),
            const_values: DefMap::new(),
            self_types: DefMap::new(),
            implemented: DefMap::new(),
            implemented_args: DefMap::new(),
            interface_generics: DefMap::new(),
            block_generics: DefMap::new(),
            prelude,
        };
        assert(decls.implemented_args() =~= Map::<DefId, Seq<ArgView>>::empty());
        assert(decls.const_values() =~= Map::<DefId, LiteralView>::empty());
        assert(decls.interface_generics() =~= Map::<DefId, Seq<DefId>>::empty());
        assert(decls.block_generics_map() =~= Map::<DefId, Seq<DefId>>::empty());
        decls
    }

    /// Declares a function, replacing any earlier declaration of it.
    pub fn declare_fn(&mut self, sig: Signature)
        requires
            old(self).wf(),
        ensures
            final(self).wf(),
            final(self).signatures() == old(self).signatures().insert(sig.def, sig),
            final(self).records() == old(self).records(),
            final(self).variants() == old(self).variants(),
            final(self).const_types() == old(self).const_types(),
            final(self).const_values() == old(self).const_values(),
            final(self).self_types() == old(self).self_types(),
            final(self).implemented() == old(self).implemented(),
            final(self).implemented_args() == old(self).implemented_args(),
            final(self).interface_generics() == old(self).interface_generics(),
            final(self).block_generics_map() == old(self).block_generics_map(),
            final(self).prelude_names() == old(self).prelude_names(),
    {
        let def = sig.def;
        self.fns.insert(def, sig);
    }

    /// Declares a record.
    pub fn declare_record(&mut self, record: Record)
        requires
            old(self).wf(),
        ensures
            final(self).wf(),
            final(self).records() == old(self).records().insert(record.def, record),
            final(self).signatures() == old(self).signatures(),
            final(self).variants() == old(self).variants(),
            final(self).const_types() == old(self).const_types(),
            final(self).const_values() == old(self).const_values(),
            final(self).self_types() == old(self).self_types(),
            final(self).implemented() == old(self).implemented(),
            final(self).implemented_args() == old(self).implemented_args(),
            final(self).interface_generics() == old(self).interface_generics(),
            final(self).block_generics_map() == old(self).block_generics_map(),
            final(self).prelude_names() == old(self).prelude_names(),
    {
        let def = record.def;
        self.records.insert(def, record);
    }

    /// Declares one variant of a choice type.
    pub fn declare_variant(&mut self, variant: Variant)
        requires
            old(self).wf(),
        ensures
            final(self).wf(),
            final(self).variants() == old(self).variants().insert(variant.def, variant),
            final(self).signatures() == old(self).signatures(),
            final(self).records() == old(self).records(),
            final(self).const_types() == old(self).const_types(),
            final(self).const_values() == old(self).const_values(),
            final(self).self_types() == old(self).self_types(),
            final(self).implemented() == old(self).implemented(),
            final(self).implemented_args() == old(self).implemented_args(),
            final(self).interface_generics() == old(self).interface_generics(),
            final(self).block_generics_map() == old(self).block_generics_map(),
            final(self).prelude_names() == old(self).prelude_names(),
    {
        let def = variant.def;
        self.variants.insert(def, variant);
    }

    /// Declares a module-level constant: its type, and the literal to
    /// substitute for it when its initialiser settled one.
    pub fn declare_const(&mut self, def: DefId, evaluated: Evaluated)
        requires
            old(self).wf(),
        ensures
            final(self).wf(),
            final(self).const_types() == old(self).const_types().insert(def, evaluated.ty),
            final(self).const_values() == (match evaluated.value {
                Some(v) => old(self).const_values().insert(def, v@),
                None => old(self).const_values(),
            }),
            final(self).signatures() == old(self).signatures(),
            final(self).records() == old(self).records(),
            final(self).variants() == old(self).variants(),
            final(self).self_types() == old(self).self_types(),
            final(self).implemented() == old(self).implemented(),
            final(self).implemented_args() == old(self).implemented_args(),
            final(self).interface_generics() == old(self).interface_generics(),
            final(self).block_generics_map() == old(self).block_generics_map(),
            final(self).prelude_names() == old(self).prelude_names(),
    {
        self.consts.insert(def, evaluated.ty);
        match evaluated.value {
            Some(value) => {
                let ghost v = value@;
                self.const_values.insert(def, value);
                assert(self.const_values() =~= old(self).const_values().insert(def, v));
            },
            None => {},
        }
    }

    /// Declares an implementation block: its `Self`, its own generic
    /// parameters, and the interface it implements with the arguments it
    /// wrote for it, when it names one. An empty argument list is not
    /// recorded.
    pub fn declare_block(
        &mut self,
        block: DefId,
        self_ty: Ty,
        generics: Vec<DefId>,
        interface: Option<(DefId, Vec<GenericArg>)>,
    )
        requires
            old(self).wf(),
        ensures
            final(self).wf(),
            final(self).self_types() == old(self).self_types().insert(block, self_ty),
            final(self).block_generics_map() == old(self).block_generics_map().insert(block, generics@),
            final(self).implemented() == (match interface {
                Some((i, _)) => old(self).implemented().insert(block, i),
                None => old(self).implemented(),
            }),
            final(self).implemented_args() == (match interface {
                Some((_, args)) => if args@.len() > 0 {
                    old(self).implemented_args().insert(block, args_view(args@))
                } else {
                    old(self).implemented_args()
                },
                None => old(self).implemented_args(),
            }),
            final(self).signatures() == old(self).signatures(),
            final(self).records() == old(self).records(),
            final(self).variants() == old(self).variants(),
            final(self).const_types() == old(self).const_types(),
            final(self).const_values() == old(self).const_values(),
            final(self).interface_generics() == old(self).interface_generics(),
            final(self).prelude_names() == old(self).prelude_names(),
    {
        let ghost old_generics = self.block_generics@;
        let ghost old_args = self.implemented_args@;
        self.self_types.insert(block, self_ty);
        let ghost g = generics@;
        self.block_generics.insert(block, generics);
        assert(self.block_generics_map() =~= old(self).block_generics_map().insert(block, g));
        match interface {
            Some((i, args)) => {
                self.implemented.insert(block, i);
                if args.len() > 0 {
                    let ghost av = args_view(args@);
                    self.implemented_args.insert(block, args);
                    assert(self.implemented_args() =~= old(self).implemented_args().insert(block, av));
                }
            },
            None => {},
        }
    }

    /// Declares an interface: its `Self`, which is its own self type, and its
    /// own generic parameters when it declares any.
    pub fn declare_interface(&mut self, interface: DefId, self_ty: Ty, generics: Vec<DefId>)
        requires
            old(self).wf(),
        ensures
            final(self).wf(),
            final(self).self_types() == old(self).self_types().insert(interface, self_ty),
            final(self).interface_generics() == (if generics@.len() > 0 {
                old(self).interface_generics().insert(interface, generics@)
            } else {
                old(self).interface_generics()
            }),
            final(self).signatures() == old(self).signatures(),
            final(self).records() == old(self).records(),
            final(self).variants() == old(self).variants(),
            final(self).const_types() == old(self).const_types(),
            final(self).const_values() == old(self).const_values(),
            final(self).implemented() == old(self).implemented(),
            final(self).implemented_args() == old(self).implemented_args(),
            final(self).block_generics_map() == old(self).block_generics_map(),
            final(self).prelude_names() == old(self).prelude_names(),
    {
        self.self_types.insert(interface, self_ty);
        if generics.len() > 0 {
            let ghost g = generics@;
            self.interface_generics.insert(interface, generics);
            assert(self.interface_generics() =~= old(self).interface_generics().insert(interface, g));
        }
    }

    /// The prelude ids.
    pub fn prelude(&self) -> (p: &Prelude)
        ensures
            p@ == self.prelude_names(),
    {
        &self.prelude
    }

    pub fn signature(&self, def: DefId) -> (r: Option<&Signature>)
        requires
            self.wf(),
        ensures
            match r {
                None => !self.signatures().dom().contains(def),
                Some(sig) => self.signatures().dom().contains(def) && self.signatures()[def] == *sig,
            },
    {
        self.fns.get(def)
    }

    pub fn record(&self, def: DefId) -> (r: Option<&Record>)
        requires
            self.wf(),
        ensures
            match r {
                None => !self.records().dom().contains(def),
                Some(rec) => self.records().dom().contains(def) && self.records()[def] == *rec,
            },
    {
        self.records.get(def)
    }

    pub fn variant(&self, def: DefId) -> (r: Option<&Variant>)
        requires
            self.wf(),
        ensures
            match r {
                None => !self.variants().dom().contains(def),
                Some(v) => self.variants().dom().contains(def) && self.variants()[def] == *v,
            },
    {
        self.variants.get(def)
    }

    /// The variants declared for `choice`, in the order they were declared.
    pub closed spec fn variants_of_spec(&self, choice: DefId) -> Seq<DefId> {
        variant_keys(self.variants.order_spec(), self.variants@, choice)
    }

    /// The variants declared for `choice`, in the order they were declared:
    /// the constructors of the choice type.
    pub fn variants_of(&self, choice: DefId) -> (r: Vec<DefId>)
        requires
            self.wf(),
        ensures
            r@ == self.variants_of_spec(choice),
    {
        let keys = self.variants.keys();
        let ghost vs = self.variants@;
        let mut out: Vec<DefId> = Vec::new();
        let mut i: usize = 0;
        while i < keys.len()
            invariant
                self.wf(),
                vs == self.variants@,
                keys@ == self.variants.order_spec(),
                forall|k: DefId| #[trigger] keys@.contains(k) <==> vs.dom().contains(k),
                i <= keys@.len(),
                out@ == variant_keys(keys@.take(i as int), vs, choice),
            decreases keys@.len() - i,
        {
            assert(keys@.take(i + 1).drop_last() =~= keys@.take(i as int));
            proof {
                assert(keys@.contains(keys@[i as int]));
            }
            let v = self.variants.get(keys[i]).unwrap();
            if v.choice == choice {
                out.push(keys[i]);
            }
            i = i + 1;
        }
        assert(keys@.take(i as int) =~= keys@);
        out
    }

    pub fn const_ty(&self, def: DefId) -> (r: Option<Ty>)
        requires
            self.wf(),
        ensures
            r == (if self.const_types().dom().contains(def) {
                Some(self.const_types()[def])
            } else {
                None
            }),
    {
        match self.consts.get(def) {
            Some(ty) => Some(*ty),
            None => None,
        }
    }

    /// The literal a constant denotes, for substitution at every use:
    /// `None` for a definition that is not a constant, and for a constant
    /// whose initialiser is not a literal of its type.
    pub fn const_value(&self, def: DefId) -> (r: Option<&Literal>)
        requires
            self.wf(),
        ensures
            match r {
                None => !self.const_values().dom().contains(def),
                Some(v) => self.const_values().dom().contains(def) && self.const_values()[def] == v@,
            },
    {
        self.const_values.get(def)
    }

    /// What `Self` means inside a block.
    pub fn self_ty(&self, owner: DefId) -> (r: Option<Ty>)
        requires
            self.wf(),
        ensures
            r == (if self.self_types().dom().contains(owner) {
                Some(self.self_types()[owner])
            } else {
                None
            }),
    {
        match self.self_types.get(owner) {
            Some(ty) => Some(*ty),
            None => None,
        }
    }

    /// The generic parameters an implementation block declares.
    pub fn block_generics(&self, owner: DefId) -> (r: Option<&[DefId]>)
        requires
            self.wf(),
        ensures
            match r {
                None => !self.block_generics_map().dom().contains(owner),
                Some(g) => self.block_generics_map().dom().contains(owner)
                    && self.block_generics_map()[owner] == g@,
            },
    {
        match self.block_generics.get(owner) {
            Some(generics) => Some(generics.as_slice()),
            None => None,
        }
    }

    /// An interface's own parameters, paired with the arguments a block
    /// supplied for them: `interface Index of Idx:` met by
    /// `Array of T implements Index of Int:` gives `[(Idx, Int)]`. Empty for
    /// a block that named no interface or supplied no arguments.
    pub fn interface_arguments(&self, block: DefId) -> (r: Vec<(DefId, GenericArg)>)
        requires
            self.wf(),
        ensures
            pairs_view(r@) == interface_arguments_of(
                self.implemented_args(),
                self.implemented(),
                self.interface_generics(),
                block,
            ),
    {
        let mut out: Vec<(DefId, GenericArg)> = Vec::new();
        let args = match self.implemented_args.get(block) {
            Some(args) => args,
            None => {
                assert(pairs_view(out@) =~= seq![]);
                return out;
            },
        };
        let interface = match self.implemented.get(block) {
            Some(interface) => *interface,
            None => {
                assert(pairs_view(out@) =~= seq![]);
                return out;
            },
        };
        let params = match self.interface_generics.get(interface) {
            Some(params) => params,
            None => {
                assert(pairs_view(out@) =~= seq![]);
                return out;
            },
        };
        let n = if params.len() < args.len() {
            params.len()
        } else {
            args.len()
        };
        let ghost av = args_view(args@);
        let mut i: usize = 0;
        while i < n
            invariant
                i <= n,
                n <= params@.len(),
                n <= args@.len(),
                av == args_view(args@),
                pairs_view(out@) == Seq::new(
                    i as nat,
                    |k: int| (params@[k], av[k]),
                ),
            decreases n - i,
        {
            let arg = crate::fold::copy_arg(&args[i]);
            let ghost before = out@;
            out.push((params[i], arg));
            proof {
                assert(out@ == before.push((params@[i as int], arg)));
                assert(av[i as int] == args@[i as int]@);
                assert(pairs_view(out@) =~= pairs_view(before).push((params@[i as int], av[i as int])));
                assert(pairs_view(out@) =~= Seq::new((i + 1) as nat, |k: int| (params@[k], av[k])));
            }
            i = i + 1;
        }
        out
    }

    /// Every function this table declares and no body defines, sorted.
    pub fn without_bodies(&self) -> (ids: Vec<DefId>)
        requires
            self.wf(),
        ensures
            increasing(ids@),
            forall|d: DefId|
                #[trigger] ids@.contains(d) <==> self.signatures().dom().contains(d)
                    && !self.signatures()[d].has_body,
    {
        self.functions_with_body(false)
    }

    /// Every function with a body, sorted.
    pub fn bodies(&self) -> (ids: Vec<DefId>)
        requires
            self.wf(),
        ensures
            increasing(ids@),
            forall|d: DefId|
                #[trigger] ids@.contains(d) <==> self.signatures().dom().contains(d)
                    && self.signatures()[d].has_body,
    {
        self.functions_with_body(true)
    }

    /// The functions whose `has_body` is `with_body`, sorted.
    fn functions_with_body(&self, with_body: bool) -> (ids: Vec<DefId>)
        requires
            self.wf(),
        ensures
            increasing(ids@),
            forall|d: DefId|
                #[trigger] ids@.contains(d) <==> self.signatures().dom().contains(d)
                    && self.signatures()[d].has_body == with_body,
    {
        let keys = self.fns.keys();
        let ghost sigs = self.signatures();
        let mut ids: Vec<DefId> = Vec::new();
        let mut i: usize = 0;
        while i < keys.len()
            invariant
                self.wf(),
                sigs == self.signatures(),
                forall|a: int, b: int| 0 <= a < b < keys@.len() ==> keys@[a] != keys@[b],
                forall|k: DefId| #[trigger] keys@.contains(k) <==> sigs.dom().contains(k),
                i <= keys@.len(),
                increasing(ids@),
                forall|d: DefId|
                    #[trigger] ids@.contains(d) <==> exists|k: int|
                        0 <= k < i && keys@[k] == d && sigs[d].has_body == with_body,
            decreases keys@.len() - i,
        {
            let d = keys[i];
            proof {
                assert(keys@.contains(d));
            }
            let sig = self.fns.get(d).unwrap();
            if sig.has_body == with_body {
                proof {
                    if ids@.contains(d) {
                        let k = choose|k: int| 0 <= k < i && keys@[k] == d && sigs[d].has_body == with_body;
                        assert(keys@[k] != keys@[i as int]);
                    }
                }
                let ghost before = ids@;
                insert_sorted(&mut ids, d);
                proof {
                    assert forall|x: DefId| #[trigger] ids@.contains(x) <==> exists|k: int|
                        0 <= k < i + 1 && keys@[k] == x && sigs[x].has_body == with_body by {
                        if x == d {
                            assert(keys@[i as int] == x);
                        }
                        if exists|k: int| 0 <= k < i + 1 && keys@[k] == x && sigs[x].has_body == with_body {
                            let k = choose|k: int| 0 <= k < i + 1 && keys@[k] == x && sigs[x].has_body == with_body;
                            if k < i {
                                assert(before.contains(x));
                            }
                        }
                    }
                }
            } else {
                proof {
                    assert forall|x: DefId| #[trigger] ids@.contains(x) <==> exists|k: int|
                        0 <= k < i + 1 && keys@[k] == x && sigs[x].has_body == with_body by {
                        if exists|k: int| 0 <= k < i + 1 && keys@[k] == x && sigs[x].has_body == with_body {
                            let k = choose|k: int| 0 <= k < i + 1 && keys@[k] == x && sigs[x].has_body == with_body;
                            if k == i {
                                assert(x == d);
                            }
                        }
                    }
                }
            }
            i = i + 1;
        }
        proof {
            assert forall|d: DefId| #[trigger] ids@.contains(d) <==> self.signatures().dom().contains(d)
                && self.signatures()[d].has_body == with_body by {
                if ids@.contains(d) {
                    let k = choose|k: int| 0 <= k < keys@.len() && keys@[k] == d && sigs[d].has_body == with_body;
                    assert(keys@.contains(d));
                }
                if self.signatures().dom().contains(d) && self.signatures()[d].has_body == with_body {
                    assert(keys@.contains(d));
                    let k = choose|k: int| 0 <= k < keys@.len() && keys@[k] == d;
                }
            }
        }
        ids
    }
}

/// Inserts `d` into an increasing list that lacks it, keeping it increasing.
pub(crate) fn insert_sorted(ids: &mut Vec<DefId>, d: DefId)
    requires
        increasing(old(ids)@),
        !old(ids)@.contains(d),
    ensures
        increasing(final(ids)@),
        forall|x: DefId| #[trigger] final(ids)@.contains(x) <==> old(ids)@.contains(x) || x == d,
{
    let ghost before = ids@;
    let mut pos: usize = 0;
    while pos < ids.len() && ids[pos].0 < d.0
        invariant
            pos <= ids@.len(),
            ids@ == before,
            forall|k: int| 0 <= k < pos ==> (#[trigger] before[k]).0 < d.0,
        decreases ids@.len() - pos,
    {
        pos = pos + 1;
    }
    proof {
        if pos < before.len() {
            assert(before[pos as int].0 >= d.0);
            if before[pos as int].0 == d.0 {
                assert(before[pos as int] == d);
                assert(before.contains(d));
            }
        }
    }
    ids.insert(pos, d);
    let ghost after = ids@;
    proof {
        assert(after == before.insert(pos as int, d));
        assert forall|a: int, b: int| 0 <= a < b < after.len() implies (#[trigger] after[a]).0 < (
        #[trigger] after[b]).0 by {
            if b < pos {
                assert(after[a] == before[a] && after[b] == before[b]);
            } else if b == pos {
                assert(after[a] == before[a]);
            } else if a < pos {
                assert(after[a] == before[a] && after[b] == before[b - 1]);
                assert(before[pos as int].0 > d.0 || pos as int == b - 1);
                if a < b - 1 {
                    assert(before[a].0 < before[b - 1].0);
                }
            } else if a == pos {
                assert(after[b] == before[b - 1]);
                assert(before[pos as int].0 > d.0);
                if pos < b - 1 {
                    assert(before[pos as int].0 < before[b - 1].0);
                }
            } else {
                assert(after[a] == before[a - 1] && after[b] == before[b - 1]);
            }
        }
        assert forall|x: DefId| #[trigger] after.contains(x) <==> before.contains(x) || x == d by {
            if after.contains(x) {
                let k = choose|k: int| 0 <= k < after.len() && after[k] == x;
                if k < pos {
                    assert(before[k] == x);
                } else if k > pos {
                    assert(before[k - 1] == x);
                }
            }
            if before.contains(x) {
                let k = choose|k: int| 0 <= k < before.len() && before[k] == x;
                if k < pos {
                    assert(after[k] == x);
                } else {
                    assert(after[k + 1] == x);
                }
            }
            if x == d {
                assert(after[pos as int] == d);
            }
        }
    }
}

/// The views of a list of pairs of a definition and an argument.
pub open spec fn pairs_view(pairs: Seq<(DefId, GenericArg)>) -> Seq<(DefId, ArgView)> {
    pairs.map_values(|p: (DefId, GenericArg)| (p.0, p.1@))
}

/// An interface's parameters paired with a block's arguments for them, as
/// far as both go; empty unless the block names an interface, wrote
/// arguments for it, and the interface declares parameters.
pub open spec fn interface_arguments_of(
    implemented_args: Map<DefId, Seq<ArgView>>,
    implemented: Map<DefId, DefId>,
    interface_generics: Map<DefId, Seq<DefId>>,
    block: DefId,
) -> Seq<(DefId, ArgView)> {
    if !implemented_args.dom().contains(block) || !implemented.dom().contains(block)
        || !interface_generics.dom().contains(implemented[block]) {
        seq![]
    } else {
        let args = implemented_args[block];
        let params = interface_generics[implemented[block]];
        let n = if params.len() < args.len() {
            params.len()
        } else {
            args.len()
        };
        Seq::new(n, |k: int| (params[k], args[k]))
    }
}

// ---------------------------------------------------------------------------
// What a body-less callee's returned references borrow
// ---------------------------------------------------------------------------

/// The `Self` a signature's receiver has: its block's, when the block has
/// one.
pub open spec fn receiver_self_ty(self_types: Map<DefId, Ty>, sig: Signature) -> Option<Ty> {
    match sig.owner {
        Some(owner) => if self_types.dom().contains(owner) {
            Some(self_types[owner])
        } else {
            None
        },
        None => None,
    }
}

/// The types [`Declarations::borrow_sources`] reads of a signature are types
/// of the table: the return type, and the argument types when the return
/// holds a reference.
pub open spec fn borrow_types_valid(kinds: Seq<KindView>, sig: Signature, self_ty: Option<Ty>) -> bool {
    !sig.has_body ==> {
        &&& sig.ret.0 < kinds.len()
        &&& (exists|d: DefId| refers_to(kinds, sig.ret.0 as int, false, d)) ==> forall|i: int|
            0 <= i < argument_types(sig, self_ty).len() ==> (#[trigger] argument_types(
                sig,
                self_ty,
            )[i]).0 < kinds.len()
    }
}

/// Whether the two lists have a definition in common.
fn share_one(a: &Vec<DefId>, b: &Vec<DefId>) -> (r: bool)
    ensures
        r == exists|d: DefId| a@.contains(d) && b@.contains(d),
{
    let mut i: usize = 0;
    while i < a.len()
        invariant
            i <= a@.len(),
            forall|k: int| 0 <= k < i ==> !b@.contains(#[trigger] a@[k]),
        decreases a@.len() - i,
    {
        let mut j: usize = 0;
        while j < b.len()
            invariant
                i < a@.len(),
                j <= b@.len(),
                forall|k: int| 0 <= k < j ==> (#[trigger] b@[k]) != a@[i as int],
            decreases b@.len() - j,
        {
            if a[i] == b[j] {
                proof {
                    assert(a@.contains(a@[i as int]));
                    assert(b@.contains(a@[i as int]));
                }
                return true;
            }
            j = j + 1;
        }
        i = i + 1;
    }
    proof {
        if exists|d: DefId| a@.contains(d) && b@.contains(d) {
            let d = choose|d: DefId| a@.contains(d) && b@.contains(d);
            let k = choose|k: int| 0 <= k < a@.len() && a@[k] == d;
            assert(!b@.contains(a@[k]));
        }
    }
    false
}

impl Declarations {
    /// Which arguments a declared but body-less callee's returned references
    /// may point into, as indices into the call's argument list (0 is a
    /// method's receiver). A reference in the return is constrained by every
    /// argument whose type names a definition its referent names; when no
    /// argument does, by every argument. `None` when the function has a body
    /// or no signature; an empty list when the return holds no reference.
    pub fn borrow_sources(&self, types: &Types, def: DefId) -> (r: Option<Vec<usize>>)
        requires
            self.wf(),
            types.wf(),
            self.signatures().dom().contains(def) ==> borrow_types_valid(
                types@,
                self.signatures()[def],
                receiver_self_ty(self.self_types(), self.signatures()[def]),
            ),
        ensures
            match r {
                None => !self.signatures().dom().contains(def) || self.signatures()[def].has_body,
                Some(v) => self.signatures().dom().contains(def) && borrow_sources_of(
                    types@,
                    self.signatures()[def],
                    receiver_self_ty(self.self_types(), self.signatures()[def]),
                ) == Some(v@),
            },
    {
        let ghost kinds = types@;
        let sig = match self.signature(def) {
            None => return None,
            Some(sig) => sig,
        };
        if sig.has_body {
            return None;
        }
        let ghost self_ty = receiver_self_ty(self.self_types(), *sig);
        let mut referents: Vec<DefId> = Vec::new();
        collect_referents(types, sig.ret, false, &mut referents);
        if referents.len() == 0 {
            proof {
                assert forall|d: DefId| !refers_to(kinds, sig.ret.0 as int, false, d) by {
                    if refers_to(kinds, sig.ret.0 as int, false, d) {
                        assert(referents@.contains(d));
                    }
                }
            }
            let none: Vec<usize> = Vec::new();
            assert(none@ =~= seq![]);
            return Some(none);
        }
        proof {
            assert(referents@.contains(referents@[0]));
            assert(refers_to(kinds, sig.ret.0 as int, false, referents@[0]));
        }
        let ghost all = argument_types(*sig, self_ty);
        let mut params: Vec<Ty> = Vec::new();
        if sig.self_param.is_some() {
            let receiver = match sig.owner {
                Some(owner) => match self.self_ty(owner) {
                    Some(ty) => ty,
                    None => Ty::error(),
                },
                None => Ty::error(),
            };
            params.push(receiver);
        }
        let ghost receivers = params@;
        proof {
            assert(all == receivers + sig.params@.map_values(|p: Param| p.ty));
        }
        let mut k: usize = 0;
        while k < sig.params.len()
            invariant
                k <= sig.params@.len(),
                all == receivers + sig.params@.map_values(|p: Param| p.ty),
                params@ == receivers + sig.params@.map_values(|p: Param| p.ty).take(k as int),
            decreases sig.params@.len() - k,
        {
            params.push(sig.params[k].ty);
            proof {
                assert(sig.params@.map_values(|p: Param| p.ty).take(k + 1) =~= sig.params@.map_values(
                    |p: Param| p.ty,
                ).take(k as int).push(sig.params@[k as int].ty));
                assert(params@ =~= receivers + sig.params@.map_values(|p: Param| p.ty).take(k + 1));
            }
            k = k + 1;
        }
        proof {
            assert(sig.params@.map_values(|p: Param| p.ty).take(sig.params@.len() as int)
                =~= sig.params@.map_values(|p: Param| p.ty));
            assert(params@ == all);
        }
        let mut sources: Vec<usize> = Vec::new();
        let mut at: usize = 0;
        while at < params.len()
            invariant
                types.wf(),
                kinds == types@,
                params@ == all,
                forall|i: int| 0 <= i < all.len() ==> (#[trigger] all[i]).0 < kinds.len(),
                forall|d: DefId| #[trigger] referents@.contains(d) <==> refers_to(kinds, sig.ret.0 as int, false, d),
                at <= params@.len(),
                sources@ == sharing_indices(kinds, sig.ret, all, at as int),
            decreases params@.len() - at,
        {
            let mut mentioned: Vec<DefId> = Vec::new();
            let p = params[at];
            assert(all[at as int] == p);
            collect_definitions(types, p, &mut mentioned);
            let shared = share_one(&mentioned, &referents);
            proof {
                assert(shared == shares_referent(kinds, sig.ret, all[at as int])) by {
                    if shared {
                        let d = choose|d: DefId| mentioned@.contains(d) && referents@.contains(d);
                        assert(refers_to(kinds, sig.ret.0 as int, false, d) && names_definition(
                            kinds,
                            p.0 as int,
                            d,
                        ));
                    }
                    if shares_referent(kinds, sig.ret, all[at as int]) {
                        let d = choose|d: DefId|
                            refers_to(kinds, sig.ret.0 as int, false, d) && names_definition(
                                kinds,
                                all[at as int].0 as int,
                                d,
                            );
                        assert(mentioned@.contains(d) && referents@.contains(d));
                    }
                }
            }
            if shared {
                sources.push(at);
            }
            at = at + 1;
        }
        if sources.len() == 0 {
            let mut at: usize = 0;
            while at < params.len()
                invariant
                    at <= params@.len(),
                    params@ == all,
                    sources@ == Seq::new(at as nat, |i: int| i as usize),
                decreases params@.len() - at,
            {
                sources.push(at);
                proof {
                    assert(sources@ =~= Seq::new((at + 1) as nat, |i: int| i as usize));
                }
                at = at + 1;
            }
        }
        Some(sources)
    }
}

// ---------------------------------------------------------------------------
// What a resolved name in a value position names
// ---------------------------------------------------------------------------

/// What a resolved name refers to.
#[derive(Debug, Clone, Copy, PartialEq, Eq, Structural)]
pub enum Res {
    /// A definition.
    Def(DefId),
    /// `Self`, inside the block it belongs to.
    SelfTy(DefId),
    /// A name that did not resolve, already reported.
    Error,
}

impl Res {
    /// The definition, when the name resolved to one.
    pub fn def_id(&self) -> (r: Option<DefId>)
        ensures
            r == (match *self {
                Res::Def(def) => Some(def),
                _ => None,
            }),
    {
        match self {
            Res::Def(def) => Some(*def),
            _ => None,
        }
    }
}

/// The kind of thing a resolved name in an expression turned out to be.
#[derive(Debug, Clone, Copy, PartialEq, Eq, Structural)]
pub enum Named {
    /// A binding: a `let`, a parameter, a closure subject, a pattern binding.
    Local(DefId),
    /// A function or a foreign function, named as a value or called.
    Function(DefId),
    /// A unit variant, or a variant applied to a payload.
    Variant(DefId),
    /// A module-level constant.
    Const(DefId),
    /// A type used where a value is expected, or anything else.
    Other,
}

/// The first definition in the table with the given id.
pub open spec fn definition_of(defs: Seq<Definition>, id: DefId) -> Option<Definition>
    decreases defs.len(),
{
    if defs.len() == 0 {
        None
    } else if defs[0].id == id {
        Some(defs[0])
    } else {
        definition_of(defs.drop_first(), id)
    }
}

/// What a definition of the given kind is, in a value position.
pub open spec fn named_kind(kind: DefKind, def: DefId) -> Named {
    match kind {
        DefKind::Local | DefKind::Param | DefKind::SelfParam => Named::Local(def),
        DefKind::Fn | DefKind::ExternFn => Named::Function(def),
        DefKind::Variant => Named::Variant(def),
        DefKind::Const => Named::Const(def),
        _ => Named::Other,
    }
}

/// The definition with the given id.
pub(crate) fn find_definition(defs: &[Definition], id: DefId) -> (r: Option<&Definition>)
    ensures
        match r {
            None => definition_of(defs@, id) is None,
            Some(d) => definition_of(defs@, id) == Some(*d),
        },
{
    let mut i: usize = 0;
    assert(defs@.skip(0) =~= defs@);
    while i < defs.len()
        invariant
            i <= defs@.len(),
            definition_of(defs@.skip(i as int), id) == definition_of(defs@, id),
        decreases defs@.len() - i,
    {
        proof {
            assert(defs@.skip(i as int)[0] == defs@[i as int]);
            assert(defs@.skip(i as int).drop_first() =~= defs@.skip(i + 1));
        }
        if defs[i].id == id {
            return Some(&defs[i]);
        }
        i = i + 1;
    }
    None
}

/// What a resolved path in a value position names: nothing for `Self` or an
/// unresolved name, else by the kind of its definition.
pub fn named(defs: &[Definition], res: Res) -> (r: Option<Named>)
    requires
        res matches Res::Def(def) ==> definition_of(defs@, def) is Some,
    ensures
        r == (match res {
            Res::Def(def) => Some(named_kind(definition_of(defs@, def).unwrap().kind, def)),
            _ => None,
        }),
{
    let def = match res {
        Res::Def(def) => def,
        Res::SelfTy(_) | Res::Error => return None,
    };
    let definition = find_definition(defs, def).unwrap();
    Some(
        match definition.kind {
            DefKind::Local | DefKind::Param | DefKind::SelfParam => Named::Local(def),
            DefKind::Fn | DefKind::ExternFn => Named::Function(def),
            DefKind::Variant => Named::Variant(def),
            DefKind::Const => Named::Const(def),
            _ => Named::Other,
        },
    )
}

// ---------------------------------------------------------------------------
// Laws
// ---------------------------------------------------------------------------

/// Recording never forgets a name.
proof fn lemma_add_name_keeps(entries: Seq<(Seq<char>, DefId)>, name: Seq<char>, id: DefId, x: Seq<char>)
    ensures
        lookup(entries, x) is Some ==> lookup(add_name(entries, name, id), x) == lookup(entries, x),
        lookup(add_name(entries, name, id), name) is Some,
{
    if lookup(entries, name) is None {
        lemma_lookup_push(entries, (name, id), x);
        lemma_lookup_push(entries, (name, id), name);
    }
}

proof fn lemma_add_aliases_keeps(
    entries: Seq<(Seq<char>, DefId)>,
    aliased: Seq<(&str, &str)>,
    name: Seq<char>,
    id: DefId,
    x: Seq<char>,
)
    ensures
        lookup(entries, x) is Some ==> lookup(add_aliases(entries, aliased, name, id), x) == lookup(
            entries,
            x,
        ),
    decreases aliased.len(),
{
    if aliased.len() > 0 {
        lemma_add_aliases_keeps(entries, aliased.drop_last(), name, id, x);
        let before = add_aliases(entries, aliased.drop_last(), name, id);
        lemma_add_name_keeps(before, aliased.last().0@, id, x);
    }
}

/// Every alias of `name` among `aliased` is recorded after they are added.
proof fn lemma_add_aliases_records(
    entries: Seq<(Seq<char>, DefId)>,
    aliased: Seq<(&str, &str)>,
    name: Seq<char>,
    id: DefId,
    k: int,
)
    requires
        0 <= k < aliased.len(),
        aliased[k].1@ == name,
    ensures
        lookup(add_aliases(entries, aliased, name, id), aliased[k].0@) is Some,
    decreases aliased.len(),
{
    let rest = aliased.drop_last();
    let before = add_aliases(entries, rest, name, id);
    if k < aliased.len() - 1 {
        assert(rest[k] == aliased[k]);
        lemma_add_aliases_records(entries, rest, name, id, k);
        lemma_add_name_keeps(before, aliased.last().0@, id, aliased[k].0@);
    } else {
        lemma_add_name_keeps(before, aliased.last().0@, id, aliased[k].0@);
    }
}

/// A longer scan keeps what a shorter one recorded.
proof fn lemma_scan_keeps(defs: Seq<Definition>, aliased: Seq<(&str, &str)>, n: int, x: Seq<char>)
    requires
        0 <= n <= defs.len(),
        lookup(scan(defs.take(n), aliased), x) is Some,
    ensures
        lookup(scan(defs, aliased), x) == lookup(scan(defs.take(n), aliased), x),
    decreases defs.len(),
{
    if n < defs.len() {
        let rest = defs.drop_last();
        assert(rest.take(n) =~= defs.take(n));
        lemma_scan_keeps(rest, aliased, n, x);
        let before = scan(rest, aliased);
        let d = defs.last();
        if d.builtin {
            let named = if wanted_names().contains(d.name@) {
                add_name(before, d.name@, d.id)
            } else {
                before
            };
            lemma_add_name_keeps(before, d.name@, d.id, x);
            lemma_add_aliases_keeps(named, aliased, d.name@, d.id, x);
        }
    } else {
        assert(defs.take(n) =~= defs);
    }
}

/// A primitive with two spellings is one definition: when the prelude has a
/// builtin definition under a canonical name, each alias of that name is
/// recorded too.
pub proof fn law_aliases_are_recorded(defs: Seq<Definition>, aliased: Seq<(&str, &str)>, i: int, k: int)
    requires
        0 <= i < defs.len(),
        defs[i].builtin,
        0 <= k < aliased.len(),
        aliased[k].1@ == defs[i].name@,
    ensures
        lookup(scan(defs, aliased), aliased[k].0@) is Some,
{
    let prefix = defs.take(i + 1);
    assert(prefix.drop_last() =~= defs.take(i));
    assert(prefix.last() == defs[i]);
    let before = scan(defs.take(i), aliased);
    let d = defs[i];
    let named = if wanted_names().contains(d.name@) {
        add_name(before, d.name@, d.id)
    } else {
        before
    };
    lemma_add_aliases_records(named, aliased, d.name@, d.id, k);
    lemma_scan_keeps(defs, aliased, i + 1, aliased[k].0@);
}

/// A wanted name that some builtin definition carries is found.
pub proof fn law_wanted_builtins_are_found(defs: Seq<Definition>, aliased: Seq<(&str, &str)>, i: int)
    requires
        0 <= i < defs.len(),
        defs[i].builtin,
        wanted_names().contains(defs[i].name@),
    ensures
        lookup(scan(defs, aliased), defs[i].name@) is Some,
{
    let prefix = defs.take(i + 1);
    assert(prefix.drop_last() =~= defs.take(i));
    assert(prefix.last() == defs[i]);
    let before = scan(defs.take(i), aliased);
    let d = defs[i];
    lemma_add_name_keeps(before, d.name@, d.id, d.name@);
    lemma_add_aliases_keeps(add_name(before, d.name@, d.id), aliased, d.name@, d.id, d.name@);
    lemma_scan_keeps(defs, aliased, i + 1, d.name@);
}

/// What a recorded name maps to is a builtin definition's id.
proof fn lemma_recorded_ids_are_builtin(defs: Seq<Definition>, aliased: Seq<(&str, &str)>, x: Seq<char>)
    ensures
        lookup(scan(defs, aliased), x) matches Some(id) ==> exists|i: int|
            0 <= i < defs.len() && #[trigger] defs[i].id == id && defs[i].builtin,
    decreases defs.len(),
{
    if defs.len() > 0 {
        let rest = defs.drop_last();
        lemma_recorded_ids_are_builtin(rest, aliased, x);
        if let Some(id) = lookup(scan(rest, aliased), x) {
            let i = choose|i: int| 0 <= i < rest.len() && #[trigger] rest[i].id == id && rest[i].builtin;
            assert(defs[i] == rest[i]);
        }
        let d = defs.last();
        if d.builtin {
            let before = scan(rest, aliased);
            let named = if wanted_names().contains(d.name@) {
                add_name(before, d.name@, d.id)
            } else {
                before
            };
            lemma_lookup_grows_by(before, named, aliased, d.name@, d.id, x);
            if let Some(id) = lookup(scan(defs, aliased), x) {
                if id == d.id {
                    assert(defs[defs.len() - 1].id == id);
                }
            }
        }
    }
}

/// Adding a name and then its aliases only ever records `id`.
proof fn lemma_lookup_grows_by(
    before: Seq<(Seq<char>, DefId)>,
    named: Seq<(Seq<char>, DefId)>,
    aliased: Seq<(&str, &str)>,
    name: Seq<char>,
    id: DefId,
    x: Seq<char>,
)
    requires
        named == before || named == add_name(before, name, id),
    ensures
        lookup(add_aliases(named, aliased, name, id), x) == lookup(before, x) || lookup(
            add_aliases(named, aliased, name, id),
            x,
        ) == Some(id),
    decreases aliased.len(),
{
    if aliased.len() == 0 {
        if named != before {
            if lookup(before, name) is None {
                lemma_lookup_push(before, (name, id), x);
            }
        }
    } else {
        let inner = add_aliases(named, aliased.drop_last(), name, id);
        lemma_lookup_grows_by(before, named, aliased.drop_last(), name, id, x);
        if aliased.last().1@ == name && lookup(inner, aliased.last().0@) is None {
            lemma_lookup_push(inner, (aliased.last().0@, id), x);
        }
    }
}

/// The prelude records nothing but builtin definitions.
pub proof fn law_prelude_holds_only_builtins(defs: Seq<Definition>, aliased: Seq<(&str, &str)>, name: Seq<char>)
    ensures
        lookup(scan(defs, aliased), name) matches Some(id) ==> exists|i: int|
            0 <= i < defs.len() && #[trigger] defs[i].id == id && defs[i].builtin,
{
    lemma_recorded_ids_are_builtin(defs, aliased, name);
}

/// A compilation without a prelude answers `false` to every question about
/// prelude types.
pub proof fn law_no_prelude_no_primitives(kinds: Seq<KindView>, ty: Ty, names: Seq<Seq<char>>)
    ensures
        !is_any(seq![], kinds, ty, names),
{
    assert forall|k: int| 0 <= k < names.len() implies !is_primitive(seq![], kinds, ty, #[trigger] names[k]) by {
        assert(lookup(Seq::<(Seq<char>, DefId)>::empty(), names[k]) is None);
    }
}

/// The sharing indices are increasing and below their bound.
proof fn lemma_sharing_indices(kinds: Seq<KindView>, ret: Ty, params: Seq<Ty>, n: int)
    requires
        0 <= n <= params.len(),
        params.len() <= usize::MAX,
    ensures
        forall|i: int| 0 <= i < sharing_indices(kinds, ret, params, n).len() ==> (#[trigger] sharing_indices(kinds, ret, params, n)[i]) < n,
        forall|i: int, j: int|
            0 <= i < j < sharing_indices(kinds, ret, params, n).len() ==> (#[trigger] sharing_indices(
                kinds,
                ret,
                params,
                n,
            )[i]) < (#[trigger] sharing_indices(kinds, ret, params, n)[j]),
    decreases n,
{
    if n > 0 {
        lemma_sharing_indices(kinds, ret, params, n - 1);
        let before = sharing_indices(kinds, ret, params, n - 1);
        if shares_referent(kinds, ret, params[n - 1]) {
            let after = before.push((n - 1) as usize);
            assert forall|i: int| 0 <= i < after.len() implies (#[trigger] after[i]) < n by {
                if i < before.len() {
                    assert(after[i] == before[i]);
                }
            }
            assert forall|i: int, j: int| 0 <= i < j < after.len() implies (#[trigger] after[i]) < (
            #[trigger] after[j]) by {
                assert(after[i] == before[i]);
                if j < before.len() {
                    assert(after[j] == before[j]);
                }
            }
        }
    }
}

/// What a body-less callee's returned references borrow is a set of
/// argument positions, in order; and when the return holds a reference and
/// the callee takes arguments, it borrows at least one of them, because a
/// reference constrained by nothing is the one answer not in the safe
/// direction.
pub proof fn law_borrow_sources_are_argument_positions(kinds: Seq<KindView>, sig: Signature, self_ty: Option<Ty>)
    requires
        argument_types(sig, self_ty).len() <= usize::MAX,
    ensures
        borrow_sources_of(kinds, sig, self_ty) matches Some(v) ==> {
            &&& forall|i: int| 0 <= i < v.len() ==> (#[trigger] v[i]) < argument_types(sig, self_ty).len()
            &&& forall|i: int, j: int| 0 <= i < j < v.len() ==> (#[trigger] v[i]) < (#[trigger] v[j])
            &&& (exists|d: DefId| refers_to(kinds, sig.ret.0 as int, false, d))
                && argument_types(sig, self_ty).len() > 0 ==> v.len() > 0
        },
{
    let params = argument_types(sig, self_ty);
    lemma_sharing_indices(kinds, sig.ret, params, params.len() as int);
}

} // verus!
