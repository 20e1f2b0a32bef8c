//! Type aliases, and the cycles among them.
//!
//! An alias keeps its own named type in the table; expanding it is a walk
//! beside the type the lowering produced. What makes that walk terminate is
//! a property of the alias table rather than of the walk: cycles are found
//! once, when the table is built, and every alias on a cycle has its body
//! replaced by the error type. A type is a finite tree whose only edge out is
//! an alias mention, so once the mention graph is acyclic every expansion
//! moves forward in an order that exists.
//!
//! Reporting at construction also reports a cycle in the declarations that
//! make it up and not at its uses, whether it is used a hundred times or
//! never.

use vstd::prelude::*;

use crate::assign::Definition;
use crate::codes::{Code, CYCLIC_ALIAS};
use crate::diagnostics::{quoted, Diagnostic, DiagnosticView, Label, LabelView};
use crate::items::{definition_of, find_definition, increasing, insert_sorted, DefMap};
use crate::text::push_str;
use crate::ty::{arg_types, args_view, kind_below, operands, DefId, GenericArg, KindView, Ty, TyKind, Types};

verus! {

// ---------------------------------------------------------------------------
// The alias-mention graph
// ---------------------------------------------------------------------------

/// The definition a kind names as a named type, when it is one.
pub open spec fn named_head(k: KindView) -> Option<DefId> {
    match k {
        KindView::Named { def, .. } => Some(def),
        _ => None,
    }
}

/// Whether the type at `t` mentions the named type `d`, at any depth.
pub open spec fn names_alias(kinds: Seq<KindView>, t: int, d: DefId) -> bool
    decreases t + 1,
{
    if t < 0 || t >= kinds.len() {
        false
    } else {
        named_head(kinds[t]) == Some(d) || exists|k: int|
            0 <= k < operands(kinds[t]).len() && operands(kinds[t])[k].0 < t && names_alias(
                kinds,
                #[trigger] operands(kinds[t])[k].0 as int,
                d,
            )
    }
}

/// Every alias the type at `s` mentions is in `out`.
pub open spec fn mentions_closed(kinds: Seq<KindView>, aliases: Map<DefId, Ty>, s: int, out: Seq<DefId>) -> bool {
    forall|d: DefId| names_alias(kinds, s, d) && aliases.dom().contains(d) ==> #[trigger] out.contains(d)
}

/// An edge of the alias-mention graph: the body of alias `u` mentions alias
/// `v`.
pub open spec fn alias_edge(kinds: Seq<KindView>, bodies: Map<DefId, Ty>, u: DefId, v: DefId) -> bool {
    &&& bodies.dom().contains(u)
    &&& bodies.dom().contains(v)
    &&& names_alias(kinds, bodies[u].0 as int, v)
}

/// `rank` strictly decreases along every edge.
pub open spec fn ranks_edges(kinds: Seq<KindView>, bodies: Map<DefId, Ty>, rank: Map<DefId, int>) -> bool {
    forall|u: DefId, v: DefId| #[trigger] alias_edge(kinds, bodies, u, v) ==> rank[v] < rank[u]
}

/// The graph has no cycle: some ranking of the aliases strictly decreases
/// along every edge.
pub open spec fn acyclic(kinds: Seq<KindView>, bodies: Map<DefId, Ty>) -> bool {
    exists|rank: Map<DefId, int>| #[trigger] ranks_edges(kinds, bodies, rank)
}

/// The types a type is built from, in order.
fn operand_list(types: &Types, ty: Ty) -> (ops: Vec<Ty>)
    requires
        types.wf(),
        types.valid(ty),
    ensures
        ops@ == operands(types@[ty.0 as int]),
{
    let ghost k = types@[ty.0 as int];
    let mut ops: Vec<Ty> = Vec::new();
    match types.kind(ty) {
        TyKind::Borrowed { inner, .. } | TyKind::Nullable(inner) => {
            ops.push(*inner);
            assert(ops@ =~= operands(k));
        },
        TyKind::Tuple(elements) => {
            let mut i: usize = 0;
            while i < elements.len()
                invariant
                    i <= elements@.len(),
                    ops@ == elements@.take(i as int),
                decreases elements@.len() - i,
            {
                ops.push(elements[i]);
                assert(ops@ =~= elements@.take(i + 1));
                i = i + 1;
            }
            assert(elements@.take(elements@.len() as int) =~= elements@);
        },
        TyKind::Closure { params, ret } => {
            let mut i: usize = 0;
            while i < params.len()
                invariant
                    i <= params@.len(),
                    ops@ == params@.take(i as int),
                decreases params@.len() - i,
            {
                ops.push(params[i]);
                assert(ops@ =~= params@.take(i + 1));
                i = i + 1;
            }
            assert(params@.take(params@.len() as int) =~= params@);
            ops.push(*ret);
            assert(ops@ =~= operands(k));
        },
        TyKind::Named { args, .. } | TyKind::Object { args, .. } => {
            let ghost av = args_view(args@);
            let mut i: usize = 0;
            assert(arg_types(av.take(0)) =~= Seq::<Ty>::empty());
            while i < args.len()
                invariant
                    i <= args@.len(),
                    av == args_view(args@),
                    ops@ == arg_types(av.take(i as int)),
                decreases args@.len() - i,
            {
                proof {
                    assert(av.take(i + 1).drop_last() =~= av.take(i as int));
                    assert(av.take(i + 1).last() == args@[i as int]@);
                }
                match &args[i] {
                    GenericArg::Type(t) => {
                        ops.push(*t);
                    },
                    _ => {},
                }
                i = i + 1;
            }
            assert(av.take(args@.len() as int) =~= av);
        },
        _ => {
            assert(ops@ =~= operands(k));
        },
    }
    ops
}

/// Appends every alias `ty` mentions that `seen` does not already account
/// for. A type reached twice is walked once: `seen` is over the table's
/// types, and every type marked in it below the current one has its aliases
/// in `out` already.
fn mentions(types: &Types, bodies: &DefMap<Ty>, ty: Ty, out: &mut Vec<DefId>, seen: &mut Vec<bool>)
    requires
        types.wf(),
        types.valid(ty),
        bodies.wf(),
        old(seen)@.len() == types@.len(),
        forall|s: int|
            0 <= s <= ty.0 && #[trigger] old(seen)@[s] ==> mentions_closed(types@, bodies@, s, old(out)@),
    ensures
        final(seen)@.len() == old(seen)@.len(),
        forall|s: int| 0 <= s < old(seen)@.len() && old(seen)@[s] ==> #[trigger] final(seen)@[s],
        forall|s: int|
            0 <= s < final(seen)@.len() && #[trigger] final(seen)@[s] && !old(seen)@[s] ==> s <= ty.0
                && mentions_closed(types@, bodies@, s, final(out)@),
        final(seen)@[ty.0 as int],
        mentions_closed(types@, bodies@, ty.0 as int, final(out)@),
        forall|d: DefId| old(out)@.contains(d) ==> #[trigger] final(out)@.contains(d),
        forall|d: DefId|
            #[trigger] final(out)@.contains(d) ==> old(out)@.contains(d) || (names_alias(
                types@,
                ty.0 as int,
                d,
            ) && bodies@.dom().contains(d)),
    decreases ty.0 + 1,
{
    let ghost kinds = types@;
    let ghost t = ty.0 as int;
    if seen[ty.0] {
        return;
    }
    seen.set(ty.0, true);
    let ghost start = out@;
    proof {
        assert(kind_below(kinds[t], t));
    }
    match types.kind(ty) {
        TyKind::Named { def, .. } => {
            if bodies.get(*def).is_some() {
                out.push(*def);
                proof {
                    assert(out@[start.len() as int] == *def);
                    assert forall|d: DefId| start.contains(d) implies #[trigger] out@.contains(d) by {
                        let i = choose|i: int| 0 <= i < start.len() && start[i] == d;
                        assert(out@[i] == d);
                    }
                }
            }
        },
        _ => {},
    }
    let ghost pushed = out@;
    proof {
        assert forall|d: DefId| #[trigger] pushed.contains(d) implies start.contains(d) || (names_alias(kinds, t, d)
            && bodies@.dom().contains(d)) by {
            if !start.contains(d) {
                let i = choose|i: int| 0 <= i < pushed.len() && pushed[i] == d;
                if i < start.len() {
                    assert(start[i] == d);
                }
            }
        }
        assert forall|d: DefId| start.contains(d) implies #[trigger] pushed.contains(d) by {
            let i = choose|i: int| 0 <= i < start.len() && start[i] == d;
            assert(pushed[i] == d);
        }
    }
    let ops = operand_list(types, ty);
    let ghost seen_start = seen@;
    let mut k: usize = 0;
    while k < ops.len()
        invariant
            types.wf(),
            bodies.wf(),
            kinds == types@,
            t == ty.0,
            0 <= t < kinds.len(),
            kind_below(kinds[t], t),
            ops@ == operands(kinds[t]),
            k <= ops@.len(),
            seen@.len() == kinds.len(),
            old(seen)@.len() == kinds.len(),
            seen@[t],
            forall|s: int| 0 <= s < old(seen)@.len() && old(seen)@[s] ==> #[trigger] seen@[s],
            forall|s: int| 0 <= s < t && #[trigger] seen@[s] ==> mentions_closed(kinds, bodies@, s, out@),
            forall|s: int| 0 <= s < seen@.len() && #[trigger] seen@[s] && !old(seen)@[s] ==> s <= t,
            forall|j: int| 0 <= j < k ==> #[trigger] seen@[ops@[j].0 as int],
            forall|d: DefId| start.contains(d) ==> #[trigger] out@.contains(d),
            forall|d: DefId| pushed.contains(d) ==> #[trigger] out@.contains(d),
            forall|d: DefId|
                #[trigger] out@.contains(d) ==> start.contains(d) || (names_alias(kinds, t, d)
                    && bodies@.dom().contains(d)),
            named_head(kinds[t]) is Some && bodies@.dom().contains(named_head(kinds[t]).unwrap())
                ==> pushed.contains(named_head(kinds[t]).unwrap()),
            forall|s: int| 0 <= s <= t && #[trigger] old(seen)@[s] ==> mentions_closed(kinds, bodies@, s, old(out)@),
        decreases ops@.len() - k,
    {
        let c = ops[k];
        proof {
            assert(operands(kinds[t])[k as int] == c);
            assert(c.0 < t);
        }
        let ghost before = out@;
        let ghost seen_before = seen@;
        mentions(types, bodies, c, out, seen);
        proof {
            assert forall|s: int| 0 <= s < t && #[trigger] seen@[s] implies mentions_closed(kinds, bodies@, s, out@) by {
                if seen_before[s] {
                    assert(mentions_closed(kinds, bodies@, s, before));
                    assert forall|d: DefId| names_alias(kinds, s, d) && bodies@.dom().contains(d) implies #[trigger] out@.contains(d) by {
                        assert(before.contains(d));
                    }
                }
            }
            assert forall|d: DefId| #[trigger] out@.contains(d) implies start.contains(d) || (names_alias(kinds, t, d)
                && bodies@.dom().contains(d)) by {
                if !before.contains(d) {
                    assert(names_alias(kinds, c.0 as int, d));
                    assert(names_alias(kinds, operands(kinds[t])[k as int].0 as int, d));
                }
            }
            assert forall|s: int| 0 <= s < old(seen)@.len() && old(seen)@[s] implies #[trigger] seen@[s] by {
                assert(seen_before[s]);
            }
            assert forall|s: int| 0 <= s < seen@.len() && #[trigger] seen@[s] && !old(seen)@[s] implies s <= t by {
                if !seen_before[s] {
                    assert(s <= c.0);
                }
            }
            assert forall|j: int| 0 <= j < k + 1 implies #[trigger] seen@[ops@[j].0 as int] by {
                if j < k {
                    assert(seen_before[ops@[j].0 as int]);
                }
            }
        }
        k = k + 1;
    }
    proof {
        assert forall|d: DefId| names_alias(kinds, t, d) && bodies@.dom().contains(d) implies #[trigger] out@.contains(d) by {
            if named_head(kinds[t]) != Some(d) {
                let j = choose|j: int|
                    0 <= j < operands(kinds[t]).len() && operands(kinds[t])[j].0 < t && names_alias(
                        kinds,
                        #[trigger] operands(kinds[t])[j].0 as int,
                        d,
                    );
                let c = ops@[j];
                assert(seen@[c.0 as int]);
                assert(mentions_closed(kinds, bodies@, c.0 as int, out@));
            }
        }
    }
}

/// Every alias the type `ty` mentions, in the order a walk meets them: once
/// per distinct type in the table that names it.
fn alias_mentions(types: &Types, bodies: &DefMap<Ty>, ty: Ty) -> (out: Vec<DefId>)
    requires
        types.wf(),
        types.valid(ty),
        bodies.wf(),
    ensures
        forall|d: DefId| #[trigger] out@.contains(d) <==> names_alias(types@, ty.0 as int, d) && bodies@.dom().contains(d),
{
    let mut seen: Vec<bool> = Vec::new();
    let mut i: usize = 0;
    while i < types.len()
        invariant
            i <= types@.len(),
            seen@.len() == i,
            forall|s: int| 0 <= s < i ==> !#[trigger] seen@[s],
        decreases types@.len() - i,
    {
        seen.push(false);
        i = i + 1;
    }
    let mut out: Vec<DefId> = Vec::new();
    mentions(types, bodies, ty, &mut out, &mut seen);
    out
}

// ---------------------------------------------------------------------------
// The cycle report
// ---------------------------------------------------------------------------

/// The names quoted and joined by `, which expands into `.
pub open spec fn expansion_joined(names: Seq<Seq<char>>) -> Seq<char>
    decreases names.len(),
{
    if names.len() == 0 {
        seq![]
    } else if names.len() == 1 {
        quoted(names[0])
    } else {
        expansion_joined(names.drop_last()) + ", which expands into "@ + quoted(names.last())
    }
}

/// The chain of expansions around a cycle, back to where it started.
pub open spec fn expansion_chain(names: Seq<Seq<char>>) -> Seq<char> {
    if names.len() == 0 {
        seq![]
    } else {
        expansion_joined(names) + ", which expands into `"@ + names[0] + "`"@
    }
}

/// The names of the definitions, in order.
pub open spec fn names_of(defs: Seq<Definition>, ids: Seq<DefId>) -> Seq<Seq<char>> {
    ids.map_values(|id: DefId| definition_of(defs, id).unwrap().name@)
}

/// The report for a cycle of aliases: the first member is where expanding
/// reaches itself again, every other member is labelled too, and the note
/// spells the chain out in expansion order.
pub open spec fn cyclic_alias_view(defs: Seq<Definition>, cycle: Seq<DefId>) -> DiagnosticView {
    DiagnosticView {
        code: CYCLIC_ALIAS,
        message: "this type alias expands into itself"@,
        labels: seq![
            LabelView {
                span: definition_of(defs, cycle[0]).unwrap().span,
                message: "expanding this alias reaches it again"@,
                primary: true,
            },
        ] + member_labels(defs, cycle.drop_first()),
        notes: seq![expansion_chain(names_of(defs, cycle)), cycle_note()],
        suggestions: seq![],
    }
}

/// A secondary label at each member's definition.
pub open spec fn member_labels(defs: Seq<Definition>, members: Seq<DefId>) -> Seq<LabelView> {
    members.map_values(
        |member: DefId|
            LabelView {
                span: definition_of(defs, member).unwrap().span,
                message: "and through this one"@,
                primary: false,
            },
    )
}

/// The views of a list of labels.
pub open spec fn labels_view(labels: Seq<Label>) -> Seq<LabelView> {
    labels.map_values(|l: Label| l@)
}

/// Why a cycle of aliases names no type.
pub open spec fn cycle_note() -> Seq<char> {
    "an alias is another name for the type on its right, so a cycle names no type at all \u{2014} a type that contains itself is a record or a choice, which has a field to hold it and a size the compiler can compute"@
}

fn owned(s: &str) -> (out: String)
    ensures
        out@ == s@,
{
    s.to_owned()
}

/// `SC0524`: a type alias that expands into itself. Every member of the
/// cycle is labelled, because a two-alias cycle has two declarations and
/// neither one is the mistake on its own.
fn cyclic_alias(defs: &[Definition], cycle: &Vec<DefId>) -> (d: Diagnostic)
    requires
        cycle@.len() >= 1,
        forall|i: int| 0 <= i < cycle@.len() ==> definition_of(defs@, #[trigger] cycle@[i]) is Some,
    ensures
        d@ == cyclic_alias_view(defs@, cycle@),
{
    let ghost names = names_of(defs@, cycle@);
    let mut chain = String::new();
    let mut i: usize = 0;
    while i < cycle.len()
        invariant
            1 <= cycle@.len(),
            i <= cycle@.len(),
            names == names_of(defs@, cycle@),
            forall|k: int| 0 <= k < cycle@.len() ==> definition_of(defs@, #[trigger] cycle@[k]) is Some,
            chain@ == expansion_joined(names.take(i as int)),
        decreases cycle@.len() - i,
    {
        let name = &find_definition(defs, cycle[i]).unwrap().name;
        assert(name@ == names[i as int]);
        if i > 0 {
            push_str(&mut chain, ", which expands into ");
        }
        push_str(&mut chain, "`");
        push_str(&mut chain, name.as_str());
        push_str(&mut chain, "`");
        proof {
            assert(names.take(i + 1).drop_last() =~= names.take(i as int));
            assert(names.take(i + 1).last() == names[i as int]);
            if i == 0 {
                assert(names.take(1).len() == 1);
                assert(expansion_joined(names.take(0)) == Seq::<char>::empty());
            }
        }
        i = i + 1;
    }
    assert(names.take(cycle@.len() as int) =~= names);
    let first = &find_definition(defs, cycle[0]).unwrap();
    push_str(&mut chain, ", which expands into `");
    push_str(&mut chain, first.name.as_str());
    push_str(&mut chain, "`");
    assert(chain@ =~= expansion_chain(names));

    let mut labels: Vec<Label> = Vec::new();
    labels.push(Label { span: first.span, message: owned("expanding this alias reaches it again"), primary: true });
    let ghost first_label = labels@[0]@;
    let ghost rest = member_labels(defs@, cycle@.drop_first());
    let mut k: usize = 1;
    while k < cycle.len()
        invariant
            1 <= k <= cycle@.len(),
            forall|j: int| 0 <= j < cycle@.len() ==> definition_of(defs@, #[trigger] cycle@[j]) is Some,
            rest == member_labels(defs@, cycle@.drop_first()),
            labels_view(labels@) == seq![first_label] + rest.take(k - 1),
            labels@.len() == k,
        decreases cycle@.len() - k,
    {
        let member = find_definition(defs, cycle[k]).unwrap();
        let ghost before = labels@;
        labels.push(Label { span: member.span, message: owned("and through this one"), primary: false });
        proof {
            assert(cycle@.drop_first()[k - 1] == cycle@[k as int]);
            assert(rest[k - 1] == labels@[k as int]@);
            assert(labels@ == before.push(labels@[k as int]));
            assert(labels_view(labels@) =~= labels_view(before).push(labels@[k as int]@));
            assert(rest.take(k as int) =~= rest.take(k - 1).push(rest[k - 1]));
            assert(labels_view(labels@) =~= seq![first_label] + rest.take(k as int));
        }
        k = k + 1;
    }
    assert(rest.take(cycle@.len() - 1) =~= rest);
    let mut notes: Vec<String> = Vec::new();
    let ghost chain_text = chain@;
    notes.push(chain);
    notes.push(
        owned(
            "an alias is another name for the type on its right, so a cycle names no type at all \u{2014} a type that contains itself is a record or a choice, which has a field to hold it and a size the compiler can compute",
        ),
    );
    let suggestions = Vec::new();
    let d = Diagnostic {
        code: Code(CYCLIC_ALIAS),
        message: owned("this type alias expands into itself"),
        labels,
        notes,
        suggestions,
    };
    assert(d@.notes =~= seq![chain_text, cycle_note()]);
    assert(d@.suggestions =~= Seq::<crate::diagnostics::SuggestionView>::empty());
    assert(d@ =~= cyclic_alias_view(defs@, cycle@));
    d
}

// ---------------------------------------------------------------------------
// Cutting cycles
// ---------------------------------------------------------------------------

/// Where the depth-first search has been. `Visiting` is "on the stack",
/// which is what makes a back edge a cycle rather than a second path.
#[derive(Debug, Clone, Copy, PartialEq, Eq, Structural)]
enum Mark {
    Visiting,
    Done,
}

/// A walk along edges of the graph.
pub open spec fn is_path(kinds: Seq<KindView>, bodies: Map<DefId, Ty>, path: Seq<DefId>) -> bool {
    forall|i: int| 0 <= i < path.len() - 1 ==> #[trigger] alias_edge(kinds, bodies, path[i], path[i + 1])
}

/// Whether `u` lies on a cycle: a walk of at least one edge from `u` back
/// to `u`.
pub open spec fn on_cycle(kinds: Seq<KindView>, bodies: Map<DefId, Ty>, u: DefId) -> bool {
    exists|path: Seq<DefId>|
        #[trigger] is_path(kinds, bodies, path) && path.len() >= 2 && path[0] == u && path.last() == u
}

/// The members, in order and followed by the first again, are a walk: a
/// cycle of the graph.
pub open spec fn is_cycle(kinds: Seq<KindView>, bodies: Map<DefId, Ty>, cycle: Seq<DefId>) -> bool {
    cycle.len() >= 1 && is_path(kinds, bodies, cycle.push(cycle[0]))
}

/// The state of the depth-first search: the marks, the stack of aliases
/// being visited, and, for the proof, when each finished alias finished.
struct Walk {
    marks: DefMap<Mark>,
    stack: Vec<DefId>,
    finish: Ghost<Map<DefId, int>>,
    clock: Ghost<int>,
}

/// What holds of the search between steps: over the bodies, the marks, the
/// stack, and the finishing times.
spec fn search_inv(
    kinds: Seq<KindView>,
    orig: Map<DefId, Ty>,
    bodies: Map<DefId, Ty>,
    marks: Map<DefId, Mark>,
    stack: Seq<DefId>,
    finish: Map<DefId, int>,
    clock: int,
) -> bool {
    &&& kinds.len() >= 1
    &&& kinds[0] == KindView::Error
    &&& bodies.dom() == orig.dom()
    &&& marks.dom().subset_of(bodies.dom())
    &&& forall|u: DefId| #[trigger] bodies.dom().contains(u) ==> bodies[u].0 < kinds.len()
    &&& forall|u: DefId| #[trigger] bodies.dom().contains(u) ==> (bodies[u] == orig[u] || bodies[u] == Ty(0))
    &&& forall|u: DefId|
        #[trigger] bodies.dom().contains(u) && bodies[u] != orig[u] ==> on_cycle(kinds, orig, u)
    &&& forall|u: DefId|
        #[trigger] bodies.dom().contains(u) && !marks.dom().contains(u) ==> bodies[u] == orig[u]
    &&& forall|i: int, j: int| 0 <= i < j < stack.len() ==> #[trigger] stack[i] != #[trigger] stack[j]
    &&& forall|i: int|
        0 <= i < stack.len() ==> marks.dom().contains(#[trigger] stack[i]) && marks[stack[i]] == Mark::Visiting
    &&& forall|u: DefId|
        #[trigger] marks.dom().contains(u) && marks[u] == Mark::Visiting ==> stack.contains(u)
    &&& forall|i: int| 0 <= i < stack.len() - 1 ==> #[trigger] alias_edge(kinds, orig, stack[i], stack[i + 1])
    &&& forall|u: DefId|
        #[trigger] marks.dom().contains(u) && marks[u] == Mark::Done ==> finish.dom().contains(u)
            && finish[u] < clock
    &&& forall|u: DefId, v: DefId|
        marks.dom().contains(u) && marks[u] == Mark::Done && #[trigger] alias_edge(kinds, bodies, u, v)
            ==> marks.dom().contains(v) && marks[v] == Mark::Done && finish[v] < finish[u]
}

/// [`search_inv`] of a walk.
spec fn walk_inv(kinds: Seq<KindView>, orig: Map<DefId, Ty>, bodies: Map<DefId, Ty>, walk: Walk) -> bool {
    search_inv(kinds, orig, bodies, walk.marks@, walk.stack@, walk.finish@, walk.clock@)
}

/// Starting to visit an unvisited alias reached along an edge.
proof fn lemma_start_visit(
    kinds: Seq<KindView>,
    orig: Map<DefId, Ty>,
    bodies: Map<DefId, Ty>,
    marks: Map<DefId, Mark>,
    stack: Seq<DefId>,
    finish: Map<DefId, int>,
    clock: int,
    def: DefId,
)
    requires
        search_inv(kinds, orig, bodies, marks, stack, finish, clock),
        bodies.dom().contains(def),
        !marks.dom().contains(def),
        stack.len() == 0 || alias_edge(kinds, orig, stack.last(), def),
    ensures
        search_inv(kinds, orig, bodies, marks.insert(def, Mark::Visiting), stack.push(def), finish, clock),
        bodies[def] == orig[def],
{
    let m = marks.insert(def, Mark::Visiting);
    let st = stack.push(def);
    assert forall|i: int, j: int| 0 <= i < j < st.len() implies #[trigger] st[i] != #[trigger] st[j] by {
        if j == stack.len() {
            assert(marks.dom().contains(stack[i]));
        } else {
            assert(st[i] == stack[i] && st[j] == stack[j]);
        }
    }
    assert forall|i: int| 0 <= i < st.len() implies m.dom().contains(#[trigger] st[i]) && m[st[i]] == Mark::Visiting by {
        if i < stack.len() {
            assert(st[i] == stack[i]);
            assert(marks.dom().contains(stack[i]));
        }
    }
    assert forall|u: DefId| #[trigger] m.dom().contains(u) && m[u] == Mark::Visiting implies st.contains(u) by {
        if u == def {
            assert(st[stack.len() as int] == def);
        } else {
            assert(stack.contains(u));
            let q = choose|q: int| 0 <= q < stack.len() && stack[q] == u;
            assert(st[q] == u);
        }
    }
    assert forall|i: int| 0 <= i < st.len() - 1 implies #[trigger] alias_edge(kinds, orig, st[i], st[i + 1]) by {
        if i + 1 < stack.len() {
            assert(st[i] == stack[i] && st[i + 1] == stack[i + 1]);
            assert(alias_edge(kinds, orig, stack[i], stack[i + 1]));
        } else {
            assert(st[i] == stack.last() && st[i + 1] == def);
        }
    }
    assert forall|u: DefId, v: DefId|
        m.dom().contains(u) && m[u] == Mark::Done && #[trigger] alias_edge(kinds, bodies, u, v)
        implies m.dom().contains(v) && m[v] == Mark::Done && finish[v] < finish[u] by {
        assert(marks.dom().contains(u) && marks[u] == Mark::Done);
        assert(marks.dom().contains(v) && marks[v] == Mark::Done);
    }
}

/// Finishing an alias on top of the stack, once everything its body
/// mentions has finished.
proof fn lemma_finish_visit(
    kinds: Seq<KindView>,
    orig: Map<DefId, Ty>,
    bodies: Map<DefId, Ty>,
    marks: Map<DefId, Mark>,
    stack: Seq<DefId>,
    finish: Map<DefId, int>,
    clock: int,
    def: DefId,
)
    requires
        search_inv(kinds, orig, bodies, marks, stack.push(def), finish, clock),
        forall|v: DefId| #[trigger] alias_edge(kinds, bodies, def, v) ==> marks.dom().contains(v)
            && marks[v] == Mark::Done,
    ensures
        search_inv(kinds, orig, bodies, marks.insert(def, Mark::Done), stack, finish.insert(def, clock), clock + 1),
{
    let st = stack.push(def);
    let m = marks.insert(def, Mark::Done);
    let f = finish.insert(def, clock);
    assert(st[stack.len() as int] == def);
    assert(marks.dom().contains(def));
    assert forall|i: int, j: int| 0 <= i < j < stack.len() implies #[trigger] stack[i] != #[trigger] stack[j] by {
        assert(st[i] == stack[i] && st[j] == stack[j]);
    }
    assert forall|i: int| 0 <= i < stack.len() implies m.dom().contains(#[trigger] stack[i]) && m[stack[i]] == Mark::Visiting by {
        assert(st[i] == stack[i]);
        assert(st[i] != st[stack.len() as int]);
    }
    assert forall|u: DefId| #[trigger] m.dom().contains(u) && m[u] == Mark::Visiting implies stack.contains(u) by {
        assert(st.contains(u));
        let q = choose|q: int| 0 <= q < st.len() && st[q] == u;
        assert(q != stack.len());
        assert(stack[q] == u);
    }
    assert forall|i: int| 0 <= i < stack.len() - 1 implies #[trigger] alias_edge(kinds, orig, stack[i], stack[i + 1]) by {
        assert(st[i] == stack[i] && st[i + 1] == stack[i + 1]);
        assert(alias_edge(kinds, orig, st[i], st[i + 1]));
    }
    assert forall|u: DefId| #[trigger] m.dom().contains(u) && m[u] == Mark::Done implies f.dom().contains(u) && f[u] < clock + 1 by {
        if u != def {
            assert(marks[u] == Mark::Done);
        }
    }
    assert forall|u: DefId, v: DefId|
        m.dom().contains(u) && m[u] == Mark::Done && #[trigger] alias_edge(kinds, bodies, u, v)
        implies m.dom().contains(v) && m[v] == Mark::Done && f[v] < f[u] by {
        if u == def {
            assert(marks[v] == Mark::Done);
            assert(v != def);
            assert(finish[v] < clock);
        } else {
            assert(marks[u] == Mark::Done);
            assert(marks.dom().contains(v) && marks[v] == Mark::Done && finish[v] < finish[u]);
            if v == def {
                assert(marks[def] == Mark::Visiting);
            }
        }
    }
}

/// The bodies with every member of the stack from `at` up replaced by the
/// error type.
spec fn poisoned(bodies: Map<DefId, Ty>, stack: Seq<DefId>, at: int) -> Map<DefId, Ty> {
    poisoned_by(bodies, stack.subrange(at, stack.len() as int))
}

/// The bodies with each of `members` replaced by the error type.
spec fn poisoned_by(bodies: Map<DefId, Ty>, members: Seq<DefId>) -> Map<DefId, Ty> {
    Map::new(
        |u: DefId| bodies.dom().contains(u),
        |u: DefId| if members.contains(u) { Ty(0) } else { bodies[u] },
    )
}

/// Cutting the cycle the stack closes at `at` keeps the invariant.
proof fn lemma_cut(
    kinds: Seq<KindView>,
    orig: Map<DefId, Ty>,
    bodies: Map<DefId, Ty>,
    marks: Map<DefId, Mark>,
    stack: Seq<DefId>,
    finish: Map<DefId, int>,
    clock: int,
    at: int,
)
    requires
        search_inv(kinds, orig, bodies, marks, stack, finish, clock),
        0 <= at < stack.len(),
        alias_edge(kinds, orig, stack.last(), stack[at]),
    ensures
        search_inv(kinds, orig, poisoned(bodies, stack, at), marks, stack, finish, clock),
        is_cycle(kinds, orig, stack.subrange(at, stack.len() as int)),
        poisoned(bodies, stack, at)[stack.last()] == Ty(0),
        poisoned(bodies, stack, at).dom() == bodies.dom(),
        forall|u: DefId| #[trigger] bodies.dom().contains(u) ==> poisoned(bodies, stack, at)[u] == bodies[u]
            || poisoned(bodies, stack, at)[u] == Ty(0),
        forall|u: DefId|
            #[trigger] marks.dom().contains(u) && marks[u] == Mark::Done ==> poisoned(bodies, stack, at)[u]
                == bodies[u],
{
    let n = stack.len() as int;
    let c = stack.subrange(at, n);
    let p = poisoned(bodies, stack, at);
    lemma_stack_cycle(kinds, orig, stack, at);
    assert(p.dom() =~= bodies.dom());
    assert forall|u: DefId| #[trigger] c.contains(u) implies marks.dom().contains(u) && marks[u] == Mark::Visiting
        && bodies.dom().contains(u) && on_cycle(kinds, orig, u) by {
        let q = choose|q: int| 0 <= q < c.len() && c[q] == u;
        assert(stack[at + q] == u);
    }
    assert(c[c.len() - 1] == stack.last());
    assert(c.contains(stack.last()));
    assert forall|u: DefId, v: DefId|
        marks.dom().contains(u) && marks[u] == Mark::Done && #[trigger] alias_edge(kinds, p, u, v)
        implies marks.dom().contains(v) && marks[v] == Mark::Done && finish[v] < finish[u] by {
        assert(!c.contains(u));
        assert(alias_edge(kinds, bodies, u, v));
    }
    assert forall|u: DefId| #[trigger] p.dom().contains(u) && p[u] != orig[u] implies on_cycle(kinds, orig, u) by {
        if c.contains(u) {
        } else {
            assert(p[u] == bodies[u]);
        }
    }
    assert forall|u: DefId| #[trigger] p.dom().contains(u) && !marks.dom().contains(u) implies p[u] == orig[u] by {
        assert(!c.contains(u));
    }
    assert forall|u: DefId| #[trigger] p.dom().contains(u) implies p[u].0 < kinds.len() by {
        if c.contains(u) {
        } else {
            assert(p[u] == bodies[u]);
        }
    }
}

/// How the search may move on: marks are only added, a finished alias stays
/// finished with its time and its body, an alias on the stack stays there,
/// and a body only ever becomes the error type.
spec fn grows(before: Walk, after: Walk, bodies_before: Map<DefId, Ty>, bodies_after: Map<DefId, Ty>) -> bool {
    &&& before.marks@.dom().subset_of(after.marks@.dom())
    &&& forall|u: DefId|
        #[trigger] before.marks@.dom().contains(u) && before.marks@[u] == Mark::Done ==> after.marks@[u]
            == Mark::Done && after.finish@[u] == before.finish@[u] && bodies_after[u] == bodies_before[u]
    &&& forall|u: DefId|
        #[trigger] before.marks@.dom().contains(u) && before.marks@[u] == Mark::Visiting ==> after.marks@[u]
            == Mark::Visiting
    &&& before.clock@ <= after.clock@
    &&& bodies_after.dom() == bodies_before.dom()
    &&& forall|u: DefId|
        #[trigger] bodies_before.dom().contains(u) ==> bodies_after[u] == bodies_before[u] || bodies_after[u]
            == Ty(0)
}

/// Every report from `from` on is the report of a cycle of the graph.
pub open spec fn reports_cycles(
    kinds: Seq<KindView>,
    orig: Map<DefId, Ty>,
    defs: Seq<Definition>,
    diagnostics: Seq<Diagnostic>,
    from: int,
) -> bool {
    forall|i: int| from <= i < diagnostics.len() ==> #[trigger] is_cycle_report(kinds, orig, defs, diagnostics[i])
}

/// The report names a cycle of the graph every member of which now has the
/// error type for its body.
pub open spec fn is_cut_report(
    kinds: Seq<KindView>,
    orig: Map<DefId, Ty>,
    defs: Seq<Definition>,
    bodies: Map<DefId, Ty>,
    d: Diagnostic,
) -> bool {
    exists|c: Seq<DefId>|
        #[trigger] is_cycle(kinds, orig, c) && d@ == cyclic_alias_view(defs, c) && forall|j: int|
            0 <= j < c.len() ==> bodies[#[trigger] c[j]] == Ty(0)
}

/// Some report from `from` on names a cycle of the graph that `u` is on.
pub open spec fn member_reported(
    kinds: Seq<KindView>,
    orig: Map<DefId, Ty>,
    defs: Seq<Definition>,
    diagnostics: Seq<Diagnostic>,
    from: int,
    u: DefId,
) -> bool {
    exists|i: int, c: Seq<DefId>|
        #![trigger is_cycle(kinds, orig, c), diagnostics[i]]
        from <= i < diagnostics.len() && is_cycle(kinds, orig, c) && diagnostics[i]@ == cyclic_alias_view(defs, c)
            && c.contains(u)
}

/// Going from `before` to `after` with the reports from `from` on: each
/// report names a cycle whose members all now have the error type, and
/// every alias whose body changed is on a reported cycle.
pub open spec fn cuts_reported(
    kinds: Seq<KindView>,
    orig: Map<DefId, Ty>,
    defs: Seq<Definition>,
    before: Map<DefId, Ty>,
    after: Map<DefId, Ty>,
    diagnostics: Seq<Diagnostic>,
    from: int,
) -> bool {
    &&& forall|i: int| from <= i < diagnostics.len() ==> #[trigger] is_cut_report(kinds, orig, defs, after, diagnostics[i])
    &&& forall|u: DefId|
        before.dom().contains(u) && #[trigger] after[u] != before[u] ==> member_reported(
            kinds,
            orig,
            defs,
            diagnostics,
            from,
            u,
        )
}

/// Nothing changed and nothing was reported.
proof fn lemma_cuts_none(
    kinds: Seq<KindView>,
    orig: Map<DefId, Ty>,
    defs: Seq<Definition>,
    bodies: Map<DefId, Ty>,
    diagnostics: Seq<Diagnostic>,
)
    ensures
        cuts_reported(kinds, orig, defs, bodies, bodies, diagnostics, diagnostics.len() as int),
{
}

/// Two stretches of cutting and reporting, one after the other, are one.
proof fn lemma_cuts_compose(
    kinds: Seq<KindView>,
    orig: Map<DefId, Ty>,
    defs: Seq<Definition>,
    b0: Map<DefId, Ty>,
    b1: Map<DefId, Ty>,
    b2: Map<DefId, Ty>,
    d1: Seq<Diagnostic>,
    d2: Seq<Diagnostic>,
    from: int,
)
    requires
        cuts_reported(kinds, orig, defs, b0, b1, d1, from),
        cuts_reported(kinds, orig, defs, b1, b2, d2, d1.len() as int),
        0 <= from <= d1.len() <= d2.len(),
        forall|i: int| 0 <= i < d1.len() ==> d2[i] == d1[i],
        b1.dom() == b0.dom(),
        b1.dom() == orig.dom(),
        forall|u: DefId| #[trigger] b1.dom().contains(u) ==> b2[u] == b1[u] || b2[u] == Ty(0),
    ensures
        cuts_reported(kinds, orig, defs, b0, b2, d2, from),
{
    assert forall|i: int| from <= i < d2.len() implies #[trigger] is_cut_report(kinds, orig, defs, b2, d2[i]) by {
        if i < d1.len() {
            assert(d2[i] == d1[i]);
            assert(is_cut_report(kinds, orig, defs, b1, d1[i]));
            let c = choose|c: Seq<DefId>|
                #[trigger] is_cycle(kinds, orig, c) && d1[i]@ == cyclic_alias_view(defs, c) && forall|j: int|
                    0 <= j < c.len() ==> b1[#[trigger] c[j]] == Ty(0);
            assert forall|j: int| 0 <= j < c.len() implies b2[#[trigger] c[j]] == Ty(0) by {
                assert(b1[c[j]] == Ty(0));
                let closed = c.push(c[0]);
                assert(alias_edge(kinds, orig, closed[j], closed[j + 1]));
                assert(closed[j] == c[j]);
                assert(b1.dom().contains(c[j]));
            }
        }
    }
    assert forall|u: DefId| b0.dom().contains(u) && #[trigger] b2[u] != b0[u] implies member_reported(
        kinds,
        orig,
        defs,
        d2,
        from,
        u,
    ) by {
        if b1[u] != b0[u] {
            let (i, c) = choose|i: int, c: Seq<DefId>|
                #![trigger is_cycle(kinds, orig, c), d1[i]]
                from <= i < d1.len() && is_cycle(kinds, orig, c) && d1[i]@ == cyclic_alias_view(defs, c) && c.contains(u);
            assert(d2[i] == d1[i]);
        } else {
            assert(b2[u] != b1[u]);
        }
    }
}

/// Whether the diagnostic is the report of a cycle of the graph.
pub open spec fn is_cycle_report(kinds: Seq<KindView>, orig: Map<DefId, Ty>, defs: Seq<Definition>, d: Diagnostic) -> bool {
    exists|c: Seq<DefId>| #[trigger] is_cycle(kinds, orig, c) && d@ == cyclic_alias_view(defs, c)
}

/// The error type mentions no alias.
proof fn lemma_error_mentions_nothing(kinds: Seq<KindView>, d: DefId)
    requires
        kinds.len() >= 1,
        kinds[0] == KindView::Error,
    ensures
        !names_alias(kinds, 0, d),
{
    assert(operands(kinds[0]) =~= Seq::<Ty>::empty());
}

/// The part of the stack from `at` up, closed by the back edge from its top
/// to `stack[at]`, is a cycle through each of its members.
proof fn lemma_stack_cycle(kinds: Seq<KindView>, orig: Map<DefId, Ty>, stack: Seq<DefId>, at: int)
    requires
        0 <= at < stack.len(),
        forall|i: int| 0 <= i < stack.len() - 1 ==> #[trigger] alias_edge(kinds, orig, stack[i], stack[i + 1]),
        alias_edge(kinds, orig, stack.last(), stack[at]),
    ensures
        is_cycle(kinds, orig, stack.subrange(at, stack.len() as int)),
        forall|j: int| at <= j < stack.len() ==> on_cycle(kinds, orig, #[trigger] stack[j]),
{
    let n = stack.len() as int;
    let c = stack.subrange(at, n);
    let closed = c.push(c[0]);
    assert forall|i: int| 0 <= i < closed.len() - 1 implies #[trigger] alias_edge(kinds, orig, closed[i], closed[i + 1]) by {
        if i < c.len() - 1 {
            assert(closed[i] == stack[at + i] && closed[i + 1] == stack[at + i + 1]);
        } else {
            assert(closed[i] == stack[n - 1] && closed[i + 1] == stack[at]);
        }
    }
    assert forall|j: int| at <= j < stack.len() implies on_cycle(kinds, orig, #[trigger] stack[j]) by {
        let path = stack.subrange(j, n) + stack.subrange(at, j + 1);
        assert forall|i: int| 0 <= i < path.len() - 1 implies #[trigger] alias_edge(kinds, orig, path[i], path[i + 1]) by {
            if i < n - j - 1 {
                assert(path[i] == stack[j + i] && path[i + 1] == stack[j + i + 1]);
            } else if i == n - j - 1 {
                assert(path[i] == stack[n - 1] && path[i + 1] == stack[at]);
            } else {
                let o = i - (n - j);
                assert(path[i] == stack[at + o] && path[i + 1] == stack[at + o + 1]);
            }
        }
        assert(is_path(kinds, orig, path));
        assert(path[0] == stack[j]);
        assert(path.last() == stack[j]);
    }
}

/// Where `def` is on the stack.
fn position(stack: &Vec<DefId>, def: DefId) -> (at: usize)
    requires
        stack@.contains(def),
    ensures
        at < stack@.len(),
        stack@[at as int] == def,
{
    let mut i: usize = 0;
    while i < stack.len()
        invariant
            i <= stack@.len(),
            stack@.contains(def),
            forall|k: int| 0 <= k < i ==> stack@[k] != def,
        decreases stack@.len() - i,
    {
        if stack[i] == def {
            return i;
        }
        i = i + 1;
    }
    proof {
        let k = choose|k: int| 0 <= k < stack@.len() && stack@[k] == def;
        assert(stack@[k] != def);
    }
    0
}

/// One alias as declared, lowered: its own generic parameters, in
/// declaration order, and its right-hand side.
#[derive(Debug)]
pub struct AliasDeclaration {
    pub def: DefId,
    pub params: Vec<DefId>,
    pub body: Ty,
}

/// Every alias in the crate, with each alias on a cycle already cut.
pub struct Aliases {
    params: DefMap<Vec<DefId>>,
    bodies: DefMap<Ty>,
}

impl View for Aliases {
    type V = Map<DefId, Ty>;

    /// Each alias's right-hand side, or the error type where a cycle was cut.
    closed spec fn view(&self) -> Map<DefId, Ty> {
        self.bodies@
    }
}

impl Aliases {
    /// Each alias's own generic parameters.
    pub closed spec fn params_map(&self) -> Map<DefId, Seq<DefId>> {
        self.params@.map_values(|p: Vec<DefId>| p@)
    }

    /// The tables are well formed.
    pub closed spec fn wf(&self) -> bool {
        &&& self.params.wf()
        &&& self.bodies.wf()
        &&& self.params@.dom() == self.bodies@.dom()
    }

    /// A table with no aliases in it.
    pub fn new() -> (aliases: Aliases)
        ensures
            aliases.wf(),
            aliases@ == Map::<DefId, Ty>::empty(),
    {
        Aliases { params: DefMap::new(), bodies: DefMap::new() }
    }

    /// Whether this definition is an alias this table expands.
    pub fn is_alias(&self, def: DefId) -> (r: bool)
        requires
            self.wf(),
        ensures
            r == self@.dom().contains(def),
    {
        self.bodies.get(def).is_some()
    }

    /// How many aliases the crate declares.
    pub fn len(&self) -> (n: usize)
        requires
            self.wf(),
        ensures
            n == self@.dom().len(),
    {
        self.bodies.len()
    }

    pub fn is_empty(&self) -> (r: bool)
        requires
            self.wf(),
        ensures
            r == (self@.dom().len() == 0),
    {
        self.bodies.len() == 0
    }

    /// Whether the type mentions, at any depth, an alias this table expands.
    pub fn mentions_any(&self, types: &Types, ty: Ty) -> (r: bool)
        requires
            self.wf(),
            types.wf(),
            types.valid(ty),
        ensures
            r == exists|d: DefId| #[trigger] names_alias(types@, ty.0 as int, d) && self@.dom().contains(d),
    {
        let found = alias_mentions(types, &self.bodies, ty);
        proof {
            if found@.len() > 0 {
                assert(found@.contains(found@[0]));
            }
            if exists|d: DefId| #[trigger] names_alias(types@, ty.0 as int, d) && self@.dom().contains(d) {
                let d = choose|d: DefId| #[trigger] names_alias(types@, ty.0 as int, d) && self@.dom().contains(d);
                assert(found@.contains(d));
            }
        }
        found.len() > 0
    }

    /// The alias's right-hand side: the error type when the alias is on a
    /// cycle.
    pub fn body(&self, def: DefId) -> (r: Option<Ty>)
        requires
            self.wf(),
        ensures
            r == (if self@.dom().contains(def) {
                Some(self@[def])
            } else {
                None
            }),
    {
        match self.bodies.get(def) {
            Some(ty) => Some(*ty),
            None => None,
        }
    }
}

impl Aliases {
    /// Cuts the cycle the stack closes at `at`: reports it once, and
    /// replaces the body of every member by the error type.
    fn cut(
        &mut self,
        at: usize,
        walk: &Walk,
        defs: &[Definition],
        diagnostics: &mut Vec<Diagnostic>,
        Ghost(kinds): Ghost<Seq<KindView>>,
        Ghost(orig): Ghost<Map<DefId, Ty>>,
    )
        requires
            old(self).bodies.wf(),
            walk_inv(kinds, orig, old(self).bodies@, *walk),
            at < walk.stack@.len(),
            alias_edge(kinds, orig, walk.stack@.last(), walk.stack@[at as int]),
            forall|u: DefId| #[trigger] orig.dom().contains(u) ==> definition_of(defs@, u) is Some,
        ensures
            final(self).bodies.wf(),
            final(self).params == old(self).params,
            final(self).bodies@ == poisoned(old(self).bodies@, walk.stack@, at as int),
            final(diagnostics)@.len() == old(diagnostics)@.len() + 1,
            forall|i: int| 0 <= i < old(diagnostics)@.len() ==> final(diagnostics)@[i] == old(diagnostics)@[i],
            is_cycle_report(kinds, orig, defs@, final(diagnostics)@[old(diagnostics)@.len() as int]),
            cuts_reported(
                kinds,
                orig,
                defs@,
                old(self).bodies@,
                final(self).bodies@,
                final(diagnostics)@,
                old(diagnostics)@.len() as int,
            ),
    {
        let ghost stack = walk.stack@;
        let mut cycle: Vec<DefId> = Vec::new();
        let mut i = at;
        while i < walk.stack.len()
            invariant
                at <= i <= stack.len(),
                stack == walk.stack@,
                cycle@ == stack.subrange(at as int, i as int),
            decreases stack.len() - i,
        {
            cycle.push(walk.stack[i]);
            assert(cycle@ =~= stack.subrange(at as int, i + 1));
            i = i + 1;
        }
        proof {
            lemma_stack_cycle(kinds, orig, stack, at as int);
            assert forall|k: int| 0 <= k < cycle@.len() implies definition_of(defs@, #[trigger] cycle@[k]) is Some by {
                assert(stack[at + k] == cycle@[k]);
                assert(walk.marks@.dom().contains(stack[at + k]));
            }
        }
        let report = cyclic_alias(defs, &cycle);
        diagnostics.push(report);
        let ghost before = self.bodies@;
        let mut j: usize = 0;
        while j < cycle.len()
            invariant
                self.bodies.wf(),
                self.params == old(self).params,
                at < stack.len(),
                cycle@ == stack.subrange(at as int, stack.len() as int),
                forall|k: int| 0 <= k < cycle@.len() ==> before.dom().contains(#[trigger] cycle@[k]),
                j <= cycle@.len(),
                self.bodies@ == poisoned_by(before, cycle@.take(j as int)),
            decreases cycle@.len() - j,
        {
            let member = cycle[j];
            let ghost prev = self.bodies@;
            self.bodies.insert(member, Ty::error());
            proof {
                assert(cycle@[j as int] == member);
                assert(before.dom().contains(member));
                assert(self.bodies@ == prev.insert(member, Ty(0)));
                assert(cycle@.take(j + 1) =~= cycle@.take(j as int).push(member));
                assert(self.bodies@ =~= poisoned_by(before, cycle@.take(j + 1))) by {
                    assert(self.bodies@.dom() =~= before.dom());
                    assert forall|u: DefId| #[trigger] before.dom().contains(u) implies self.bodies@[u] == poisoned_by(
                        before,
                        cycle@.take(j + 1),
                    )[u] by {
                        crate::items::lemma_push_contains(cycle@.take(j as int), member, u);
                        if u != member {
                            assert(self.bodies@[u] == prev[u]);
                        }
                    }
                }
            }
            j = j + 1;
        }
        proof {
            assert(cycle@.take(cycle@.len() as int) =~= cycle@);
            let c = cycle@;
            let n = old(diagnostics)@.len() as int;
            assert(diagnostics@[n]@ == cyclic_alias_view(defs@, c));
            assert forall|j: int| 0 <= j < c.len() implies self.bodies@[#[trigger] c[j]] == Ty(0) by {
                assert(c.contains(c[j]));
            }
            assert(is_cut_report(kinds, orig, defs@, self.bodies@, diagnostics@[n]));
            assert forall|u: DefId| before.dom().contains(u) && #[trigger] self.bodies@[u] != before[u] implies member_reported(
                kinds,
                orig,
                defs@,
                diagnostics@,
                n,
                u,
            ) by {
                assert(c.contains(u));
                assert(is_cycle(kinds, orig, c));
            }
        }
    }

    /// Visits `def` and everything its body mentions, depth first. A mention
    /// of an alias still on the stack is a back edge: the stack from that
    /// alias up is a cycle.
    fn visit(
        &mut self,
        def: DefId,
        types: &Types,
        defs: &[Definition],
        walk: &mut Walk,
        diagnostics: &mut Vec<Diagnostic>,
        Ghost(orig): Ghost<Map<DefId, Ty>>,
    )
        requires
            types.wf(),
            old(self).bodies.wf(),
            old(walk).marks.wf(),
            walk_inv(types@, orig, old(self).bodies@, *old(walk)),
            old(self).bodies@.dom().contains(def),
            old(walk).stack@.len() == 0 || alias_edge(types@, orig, old(walk).stack@.last(), def),
            forall|u: DefId| #[trigger] orig.dom().contains(u) ==> definition_of(defs@, u) is Some,
        ensures
            final(self).bodies.wf(),
            final(walk).marks.wf(),
            final(self).params == old(self).params,
            walk_inv(types@, orig, final(self).bodies@, *final(walk)),
            final(walk).stack@ == old(walk).stack@,
            grows(*old(walk), *final(walk), old(self).bodies@, final(self).bodies@),
            final(walk).marks@.dom().contains(def),
            final(walk).marks@[def] == Mark::Done || (old(walk).marks@.dom().contains(def)
                && old(walk).marks@[def] == Mark::Visiting && old(walk).stack@.len() > 0
                && final(self).bodies@[old(walk).stack@.last()] == Ty(0)),
            final(diagnostics)@.len() >= old(diagnostics)@.len(),
            forall|i: int| 0 <= i < old(diagnostics)@.len() ==> final(diagnostics)@[i] == old(diagnostics)@[i],
            reports_cycles(types@, orig, defs@, final(diagnostics)@, old(diagnostics)@.len() as int),
            cuts_reported(
                types@,
                orig,
                defs@,
                old(self).bodies@,
                final(self).bodies@,
                final(diagnostics)@,
                old(diagnostics)@.len() as int,
            ),
        decreases old(self).bodies@.dom().len() - old(walk).marks@.dom().len(),
    {
        let ghost kinds = types@;
        let mark = match walk.marks.get(def) {
            Some(m) => Some(*m),
            None => None,
        };
        match mark {
            Some(Mark::Done) => {
                proof {
                    lemma_cuts_none(kinds, orig, defs@, self.bodies@, diagnostics@);
                }
                return;
            },
            Some(Mark::Visiting) => {
                let at = position(&walk.stack, def);
                proof {
                    lemma_cut(
                        kinds,
                        orig,
                        self.bodies@,
                        walk.marks@,
                        walk.stack@,
                        walk.finish@,
                        walk.clock@,
                        at as int,
                    );
                }
                self.cut(at, walk, defs, diagnostics, Ghost(kinds), Ghost(orig));
                return;
            },
            None => {},
        }
        proof {
            walk.marks.lemma_dom_finite();
            self.bodies.lemma_dom_finite();
            lemma_start_visit(
                kinds,
                orig,
                self.bodies@,
                walk.marks@,
                walk.stack@,
                walk.finish@,
                walk.clock@,
                def,
            );
        }
        proof {
            lemma_cuts_none(kinds, orig, defs@, self.bodies@, diagnostics@);
        }
        let ghost entry_marks = walk.marks@;
        walk.marks.insert(def, Mark::Visiting);
        walk.stack.push(def);
        let body = *self.bodies.get(def).unwrap();
        let mentioned = alias_mentions(types, &self.bodies, body);
        let mut k: usize = 0;
        while k < mentioned.len()
            invariant
                types.wf(),
                kinds == types@,
                self.bodies.wf(),
                walk.marks.wf(),
                self.params == old(self).params,
                walk_inv(kinds, orig, self.bodies@, *walk),
                walk.stack@ == old(walk).stack@.push(def),
                forall|u: DefId| #[trigger] orig.dom().contains(u) ==> definition_of(defs@, u) is Some,
                entry_marks == old(walk).marks@,
                !entry_marks.dom().contains(def),
                entry_marks.dom().insert(def).subset_of(walk.marks@.dom()),
                old(self).bodies@.dom().finite(),
                body == orig[def],
                forall|v: DefId| #[trigger] mentioned@.contains(v) <==> names_alias(kinds, body.0 as int, v)
                    && old(self).bodies@.dom().contains(v),
                k <= mentioned@.len(),
                forall|j: int| 0 <= j < k ==> (walk.marks@.dom().contains(#[trigger] mentioned@[j])
                    && walk.marks@[mentioned@[j]] == Mark::Done) || self.bodies@[def] == Ty(0),
                grows(*old(walk), *walk, old(self).bodies@, self.bodies@),
                diagnostics@.len() >= old(diagnostics)@.len(),
                forall|i: int| 0 <= i < old(diagnostics)@.len() ==> diagnostics@[i] == old(diagnostics)@[i],
                reports_cycles(kinds, orig, defs@, diagnostics@, old(diagnostics)@.len() as int),
                cuts_reported(
                    kinds,
                    orig,
                    defs@,
                    old(self).bodies@,
                    self.bodies@,
                    diagnostics@,
                    old(diagnostics)@.len() as int,
                ),
                old(self).bodies@.dom() == orig.dom(),
            decreases mentioned@.len() - k,
        {
            let next = mentioned[k];
            proof {
                assert(mentioned@.contains(next));
                assert(alias_edge(kinds, orig, def, next));
                walk.marks.lemma_dom_finite();
                vstd::set_lib::lemma_len_subset(entry_marks.dom().insert(def), walk.marks@.dom());
                vstd::set_lib::lemma_len_subset(walk.marks@.dom(), self.bodies@.dom());
                vstd::set::axiom_set_insert_len(entry_marks.dom(), def);
            }
            let ghost call_walk = *walk;
            let ghost call_bodies = self.bodies@;
            let ghost call_diags = diagnostics@;
            self.visit(next, types, defs, walk, diagnostics, Ghost(orig));
            proof {
                lemma_cuts_compose(
                    kinds,
                    orig,
                    defs@,
                    old(self).bodies@,
                    call_bodies,
                    self.bodies@,
                    call_diags,
                    diagnostics@,
                    old(diagnostics)@.len() as int,
                );
                lemma_grows_trans(*old(walk), call_walk, *walk, old(self).bodies@, call_bodies, self.bodies@);
                assert forall|j: int| 0 <= j < k + 1 implies (walk.marks@.dom().contains(#[trigger] mentioned@[j])
                    && walk.marks@[mentioned@[j]] == Mark::Done) || self.bodies@[def] == Ty(0) by {
                    if j < k {
                        if call_bodies[def] == Ty(0) {
                        } else {
                            assert(call_walk.marks@.dom().contains(mentioned@[j]));
                        }
                    }
                }
                assert forall|i: int| old(diagnostics)@.len() <= i < diagnostics@.len() implies #[trigger] is_cycle_report(
                    kinds,
                    orig,
                    defs@,
                    diagnostics@[i],
                ) by {
                    if i < call_diags.len() {
                        assert(diagnostics@[i] == call_diags[i]);
                    }
                }
            }
            k = k + 1;
        }
        let ghost last_walk = *walk;
        proof {
            assert forall|v: DefId| #[trigger] alias_edge(kinds, self.bodies@, def, v) implies walk.marks@.dom().contains(v)
                && walk.marks@[v] == Mark::Done by {
                if self.bodies@[def] == Ty(0) {
                    lemma_error_mentions_nothing(kinds, v);
                } else {
                    assert(mentioned@.contains(v));
                    let j = choose|j: int| 0 <= j < mentioned@.len() && mentioned@[j] == v;
                    assert(walk.marks@[mentioned@[j]] == Mark::Done);
                }
            }
            assert(walk.stack@.drop_last() =~= old(walk).stack@);
            assert(old(walk).stack@.push(def) == walk.stack@);
            lemma_finish_visit(
                kinds,
                orig,
                self.bodies@,
                walk.marks@,
                old(walk).stack@,
                walk.finish@,
                walk.clock@,
                def,
            );
        }
        walk.stack.pop();
        walk.marks.insert(def, Mark::Done);
        walk.finish = Ghost(walk.finish@.insert(def, walk.clock@));
        walk.clock = Ghost(walk.clock@ + 1);
        proof {
            assert(walk.stack@ =~= old(walk).stack@);
            assert(grows(*old(walk), *walk, old(self).bodies@, self.bodies@)) by {
                assert forall|u: DefId| #[trigger] old(walk).marks@.dom().contains(u) && old(walk).marks@[u] == Mark::Done
                    implies walk.marks@[u] == Mark::Done && walk.finish@[u] == old(walk).finish@[u]
                    && self.bodies@[u] == old(self).bodies@[u] by {
                    assert(u != def);
                    assert(last_walk.marks@[u] == Mark::Done);
                }
                assert forall|u: DefId| #[trigger] old(walk).marks@.dom().contains(u) && old(walk).marks@[u] == Mark::Visiting
                    implies walk.marks@[u] == Mark::Visiting by {
                    assert(u != def);
                    assert(last_walk.marks@[u] == Mark::Visiting);
                }
            }
        }
    }
}

/// Moving on twice is moving on.
proof fn lemma_grows_trans(a: Walk, b: Walk, c: Walk, ba: Map<DefId, Ty>, bb: Map<DefId, Ty>, bc: Map<DefId, Ty>)
    requires
        grows(a, b, ba, bb),
        grows(b, c, bb, bc),
    ensures
        grows(a, c, ba, bc),
{
    assert forall|u: DefId| #[trigger] a.marks@.dom().contains(u) && a.marks@[u] == Mark::Done implies c.marks@[u]
        == Mark::Done && c.finish@[u] == a.finish@[u] && bc[u] == ba[u] by {
        assert(b.marks@.dom().contains(u) && b.marks@[u] == Mark::Done);
    }
    assert forall|u: DefId| #[trigger] a.marks@.dom().contains(u) && a.marks@[u] == Mark::Visiting implies c.marks@[u]
        == Mark::Visiting by {
        assert(b.marks@.dom().contains(u) && b.marks@[u] == Mark::Visiting);
    }
    assert forall|u: DefId| #[trigger] ba.dom().contains(u) implies bc[u] == ba[u] || bc[u] == Ty(0) by {
        assert(bb.dom().contains(u));
    }
}

/// What the declarations declare, the later of two for one alias winning.
pub open spec fn declared(declarations: Seq<AliasDeclaration>) -> Map<DefId, Ty>
    decreases declarations.len(),
{
    if declarations.len() == 0 {
        Map::empty()
    } else {
        declared(declarations.drop_last()).insert(declarations.last().def, declarations.last().body)
    }
}

/// The generic parameters the declarations declare, the later winning.
pub open spec fn declared_params(declarations: Seq<AliasDeclaration>) -> Map<DefId, Seq<DefId>>
    decreases declarations.len(),
{
    if declarations.len() == 0 {
        Map::empty()
    } else {
        declared_params(declarations.drop_last()).insert(declarations.last().def, declarations.last().params@)
    }
}

fn copy_ids(ids: &Vec<DefId>) -> (out: Vec<DefId>)
    ensures
        out@ == ids@,
{
    let mut out: Vec<DefId> = Vec::new();
    let mut i: usize = 0;
    while i < ids.len()
        invariant
            i <= ids@.len(),
            out@ == ids@.take(i as int),
        decreases ids@.len() - i,
    {
        out.push(ids[i]);
        assert(out@ =~= ids@.take(i + 1));
        i = i + 1;
    }
    assert(ids@.take(ids@.len() as int) =~= ids@);
    out
}

impl Aliases {
    /// The table of the crate's aliases, lowered, with every cycle in the
    /// alias-mention graph cut: the walk, depth first and in id order,
    /// reports the cycle each mention that closes one closes, and every alias
    /// on a reported cycle has its body replaced by the error type. Two
    /// aliases that name each other are one report; an alias whose body names
    /// it twice, through two different types, is reported once per mention.
    pub fn of(
        declarations: &[AliasDeclaration],
        types: &Types,
        defs: &[Definition],
        diagnostics: &mut Vec<Diagnostic>,
    ) -> (aliases: Aliases)
        requires
            types.wf(),
            forall|i: int| 0 <= i < declarations@.len() ==> types.valid(#[trigger] declarations@[i].body),
            forall|i: int|
                0 <= i < declarations@.len() ==> definition_of(defs@, #[trigger] declarations@[i].def) is Some,
        ensures
            aliases.wf(),
            aliases@.dom() == declared(declarations@).dom(),
            aliases.params_map() == declared_params(declarations@),
            forall|u: DefId| #[trigger] aliases@.dom().contains(u) ==> aliases@[u] == declared(declarations@)[u] || (
            aliases@[u] == Ty(0) && on_cycle(types@, declared(declarations@), u)),
            acyclic(types@, aliases@),
            final(diagnostics)@.len() >= old(diagnostics)@.len(),
            forall|i: int| 0 <= i < old(diagnostics)@.len() ==> final(diagnostics)@[i] == old(diagnostics)@[i],
            reports_cycles(types@, declared(declarations@), defs@, final(diagnostics)@, old(diagnostics)@.len() as int),
            cuts_reported(
                types@,
                declared(declarations@),
                defs@,
                declared(declarations@),
                aliases@,
                final(diagnostics)@,
                old(diagnostics)@.len() as int,
            ),
    {
        let mut aliases = Aliases::new();
        let mut i: usize = 0;
        while i < declarations.len()
            invariant
                i <= declarations@.len(),
                aliases.wf(),
                aliases@ == declared(declarations@.take(i as int)),
                aliases.params_map() == declared_params(declarations@.take(i as int)),
            decreases declarations@.len() - i,
        {
            let declaration = &declarations[i];
            proof {
                assert(declarations@.take(i + 1).drop_last() =~= declarations@.take(i as int));
                assert(declarations@.take(i + 1).last() == declarations@[i as int]);
            }
            let params = copy_ids(&declaration.params);
            let ghost p = params@;
            aliases.params.insert(declaration.def, params);
            aliases.bodies.insert(declaration.def, declaration.body);
            assert(aliases.params_map() =~= declared_params(declarations@.take(i + 1)));
            i = i + 1;
        }
        assert(declarations@.take(declarations@.len() as int) =~= declarations@);
        proof {
            assert forall|u: DefId| #[trigger] declared(declarations@).dom().contains(u) implies types.valid(
                declared(declarations@)[u],
            ) && definition_of(defs@, u) is Some by {
                lemma_declared_from(declarations@, u);
            }
        }
        let ghost orig = aliases.bodies@;
        aliases.cut_cycles(types, defs, diagnostics, Ghost(orig));
        aliases
    }

    /// Reports every cycle in the alias-mention graph and cuts it, visiting
    /// the aliases in id order so that the reports come in the same order
    /// every time.
    fn cut_cycles(
        &mut self,
        types: &Types,
        defs: &[Definition],
        diagnostics: &mut Vec<Diagnostic>,
        Ghost(orig): Ghost<Map<DefId, Ty>>,
    )
        requires
            types.wf(),
            old(self).wf(),
            old(self)@ == orig,
            forall|u: DefId| #[trigger] orig.dom().contains(u) ==> types.valid(orig[u]) && definition_of(defs@, u) is Some,
        ensures
            final(self).wf(),
            final(self).params == old(self).params,
            final(self)@.dom() == orig.dom(),
            forall|u: DefId| #[trigger] orig.dom().contains(u) ==> final(self)@[u] == orig[u] || (final(self)@[u]
                == Ty(0) && on_cycle(types@, orig, u)),
            acyclic(types@, final(self)@),
            final(diagnostics)@.len() >= old(diagnostics)@.len(),
            forall|i: int| 0 <= i < old(diagnostics)@.len() ==> final(diagnostics)@[i] == old(diagnostics)@[i],
            reports_cycles(types@, orig, defs@, final(diagnostics)@, old(diagnostics)@.len() as int),
            cuts_reported(types@, orig, defs@, orig, final(self)@, final(diagnostics)@, old(diagnostics)@.len() as int),
    {
        let ghost kinds = types@;
        proof {
            lemma_cuts_none(kinds, orig, defs@, self.bodies@, diagnostics@);
        }
        let mut walk = Walk {
            marks: DefMap::new(),
            stack: Vec::new(),
            finish: Ghost(Map::empty()),
            clock: Ghost(0),
        };
        let keys = self.bodies.keys();
        let mut roots: Vec<DefId> = Vec::new();
        let mut i: usize = 0;
        while i < keys.len()
            invariant
                i <= keys@.len(),
                forall|a: int, b: int| 0 <= a < b < keys@.len() ==> keys@[a] != keys@[b],
                increasing(roots@),
                forall|d: DefId| #[trigger] roots@.contains(d) <==> keys@.take(i as int).contains(d),
            decreases keys@.len() - i,
        {
            proof {
                if roots@.contains(keys@[i as int]) {
                    let q = choose|q: int| 0 <= q < keys@.take(i as int).len() && keys@.take(i as int)[q] == keys@[i as int];
                    assert(keys@[q] == keys@[i as int]);
                }
            }
            insert_sorted(&mut roots, keys[i]);
            proof {
                assert(keys@.take(i + 1) =~= keys@.take(i as int).push(keys@[i as int]));
                assert forall|d: DefId| #[trigger] roots@.contains(d) <==> keys@.take(i + 1).contains(d) by {
                    crate::items::lemma_push_contains(keys@.take(i as int), keys@[i as int], d);
                }
            }
            i = i + 1;
        }
        assert(keys@.take(keys@.len() as int) =~= keys@);
        proof {
            assert(walk.marks@ =~= Map::<DefId, Mark>::empty());
            assert(walk_inv(kinds, orig, self.bodies@, walk)) by {
                assert(walk.marks@.dom() =~= Set::<DefId>::empty());
            }
        }
        let ghost start_walk = walk;
        let mut r: usize = 0;
        while r < roots.len()
            invariant
                types.wf(),
                kinds == types@,
                self.bodies.wf(),
                self.params.wf(),
                self.params == old(self).params,
                self.params@.dom() == orig.dom(),
                walk.marks.wf(),
                walk_inv(kinds, orig, self.bodies@, walk),
                walk.stack@.len() == 0,
                forall|u: DefId| #[trigger] orig.dom().contains(u) ==> definition_of(defs@, u) is Some,
                forall|d: DefId| #[trigger] roots@.contains(d) <==> orig.dom().contains(d),
                r <= roots@.len(),
                forall|q: int| 0 <= q < r ==> walk.marks@.dom().contains(#[trigger] roots@[q])
                    && walk.marks@[roots@[q]] == Mark::Done,
                grows(start_walk, walk, orig, self.bodies@),
                diagnostics@.len() >= old(diagnostics)@.len(),
                forall|q: int| 0 <= q < old(diagnostics)@.len() ==> diagnostics@[q] == old(diagnostics)@[q],
                reports_cycles(kinds, orig, defs@, diagnostics@, old(diagnostics)@.len() as int),
                cuts_reported(kinds, orig, defs@, orig, self.bodies@, diagnostics@, old(diagnostics)@.len() as int),
            decreases roots@.len() - r,
        {
            let root = roots[r];
            proof {
                assert(roots@.contains(root));
            }
            let ghost before_walk = walk;
            let ghost before_bodies = self.bodies@;
            let ghost before_diags = diagnostics@;
            self.visit(root, types, defs, &mut walk, diagnostics, Ghost(orig));
            proof {
                lemma_cuts_compose(
                    kinds,
                    orig,
                    defs@,
                    orig,
                    before_bodies,
                    self.bodies@,
                    before_diags,
                    diagnostics@,
                    old(diagnostics)@.len() as int,
                );
                lemma_grows_trans(start_walk, before_walk, walk, orig, before_bodies, self.bodies@);
                assert forall|q: int| 0 <= q < r + 1 implies walk.marks@.dom().contains(#[trigger] roots@[q])
                    && walk.marks@[roots@[q]] == Mark::Done by {
                    if q < r {
                        assert(before_walk.marks@.dom().contains(roots@[q]));
                    }
                }
                assert forall|q: int| old(diagnostics)@.len() <= q < diagnostics@.len() implies #[trigger] is_cycle_report(
                    kinds,
                    orig,
                    defs@,
                    diagnostics@[q],
                ) by {
                    if q < before_diags.len() {
                        assert(diagnostics@[q] == before_diags[q]);
                    }
                }
            }
            r = r + 1;
        }
        proof {
            let bodies = self.bodies@;
            assert forall|u: DefId| orig.dom().contains(u) implies walk.marks@.dom().contains(u)
                && walk.marks@[u] == Mark::Done by {
                assert(roots@.contains(u));
                let q = choose|q: int| 0 <= q < roots@.len() && roots@[q] == u;
                assert(walk.marks@.dom().contains(roots@[q]));
            }
            assert(ranks_edges(kinds, bodies, walk.finish@)) by {
                assert forall|u: DefId, v: DefId| #[trigger] alias_edge(kinds, bodies, u, v) implies walk.finish@[v]
                    < walk.finish@[u] by {
                    assert(orig.dom().contains(u));
                    assert(walk.marks@[u] == Mark::Done);
                }
            }
            assert forall|u: DefId| #[trigger] orig.dom().contains(u) implies self@[u] == orig[u] || (self@[u] == Ty(0)
                && on_cycle(kinds, orig, u)) by {
                assert(bodies.dom().contains(u));
            }
        }
    }
}

/// An alias the declarations declare was declared by one of them.
proof fn lemma_declared_from(declarations: Seq<AliasDeclaration>, u: DefId)
    requires
        declared(declarations).dom().contains(u),
    ensures
        exists|i: int| 0 <= i < declarations.len() && #[trigger] declarations[i].def == u && declarations[i].body
            == declared(declarations)[u],
    decreases declarations.len(),
{
    let rest = declarations.drop_last();
    if declarations.last().def == u {
        assert(declarations[declarations.len() - 1].def == u);
    } else {
        lemma_declared_from(rest, u);
        let i = choose|i: int| 0 <= i < rest.len() && #[trigger] rest[i].def == u && rest[i].body == declared(rest)[u];
        assert(declarations[i] == rest[i]);
    }
}

// ---------------------------------------------------------------------------
// Laws
// ---------------------------------------------------------------------------

/// Along a walk of at least one edge, a ranking of the edges strictly
/// decreases from its first alias to its last.
proof fn lemma_rank_decreases(kinds: Seq<KindView>, bodies: Map<DefId, Ty>, rank: Map<DefId, int>, path: Seq<DefId>)
    requires
        ranks_edges(kinds, bodies, rank),
        is_path(kinds, bodies, path),
        path.len() >= 2,
    ensures
        rank[path.last()] < rank[path[0]],
    decreases path.len(),
{
    let first: int = 0;
    assert(alias_edge(kinds, bodies, path[first], path[first + 1]));
    if path.len() > 2 {
        let rest = path.drop_first();
        assert forall|i: int| 0 <= i < rest.len() - 1 implies #[trigger] alias_edge(kinds, bodies, rest[i], rest[i + 1]) by {
            assert(rest[i] == path[i + 1] && rest[i + 1] == path[i + 2]);
            assert(alias_edge(kinds, bodies, path[i + 1], path[i + 2]));
        }
        lemma_rank_decreases(kinds, bodies, rank, rest);
        assert(rest.last() == path.last());
        assert(rest[0] == path[first + 1]);
    }
}

/// Every cycle of the declared aliases is cut: once the table is built, at
/// least one alias on it no longer has its declared body.
pub proof fn law_every_cycle_is_cut(
    kinds: Seq<KindView>,
    declared_bodies: Map<DefId, Ty>,
    bodies: Map<DefId, Ty>,
    cycle: Seq<DefId>,
)
    requires
        bodies.dom() == declared_bodies.dom(),
        acyclic(kinds, bodies),
        is_cycle(kinds, declared_bodies, cycle),
    ensures
        exists|i: int| 0 <= i < cycle.len() && bodies[#[trigger] cycle[i]] != declared_bodies[cycle[i]],
{
    if forall|i: int| 0 <= i < cycle.len() ==> bodies[#[trigger] cycle[i]] == declared_bodies[cycle[i]] {
        let rank = choose|rank: Map<DefId, int>| #[trigger] ranks_edges(kinds, bodies, rank);
        let closed = cycle.push(cycle[0]);
        assert forall|i: int| 0 <= i < closed.len() - 1 implies #[trigger] alias_edge(kinds, bodies, closed[i], closed[i + 1]) by {
            assert(alias_edge(kinds, declared_bodies, closed[i], closed[i + 1]));
            assert(closed[i] == cycle[i]);
        }
        lemma_rank_decreases(kinds, bodies, rank, closed);
        assert(closed.last() == closed[0]);
    }
}

} // verus!
