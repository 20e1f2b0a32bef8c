use science::check::{
    bare_const_param, binding_count, instances_not_narrowed, mismatched_types, no_matching_instance, no_such_field,
    no_such_method, not_nullable, suffix_name, unsatisfied_bound, uninferable_receiver,
    wrong_argument_count,
};
use science::codes::{
    AMBIGUOUS_METHOD, BINDING_COUNT_MISMATCH, MISMATCHED_TYPES, NO_MATCHING_IMPLEMENTATION,
    UNINFERABLE_RECEIVER, UNSATISFIED_BOUND, WRONG_ARGUMENT_COUNT,
};
use science::fold::ConstEvalError;
use science::infer::Span;
use science::syntax::NumSuffix;
use science::ty::{DefId, NormalForm};

fn at(start: usize) -> Span {
    Span { start, end: start + 3 }
}

#[test]
fn a_mismatch_names_the_expected_type_first() {
    let d = mismatched_types(at(1), "Int", "String");
    assert_eq!(d.code.0, MISMATCHED_TYPES);
    assert_eq!(d.message, "expected `Int`, found `String`");
    assert_eq!(d.labels[0].message, "this is `String`");
    assert!(d.notes.is_empty());
}

#[test]
fn an_argument_count_is_singular_for_one() {
    let one = wrong_argument_count(at(0), 1, 3);
    assert_eq!(one.code.0, WRONG_ARGUMENT_COUNT);
    assert_eq!(one.message, "this call takes 1 argument and was given 3");
    assert_eq!(one.labels[0].message, "3 given");
    let two = wrong_argument_count(at(0), 2, 0);
    assert_eq!(two.message, "this call takes 2 arguments and was given 0");
}

#[test]
fn a_binding_count_says_whether_the_value_is_a_tuple() {
    let parts = binding_count(at(0), 2, Some(3), "(Int, Int, Int)");
    assert_eq!(parts.code.0, BINDING_COUNT_MISMATCH);
    assert_eq!(parts.message, "this `let` binds 2 names and the value has 3 parts");
    assert_eq!(parts.labels[0].message, "the value is `(Int, Int, Int)`");
    let none = binding_count(at(0), 2, None, "Int");
    assert_eq!(none.message, "this `let` binds 2 names and the value is not a tuple");
}

#[test]
fn fields_methods_and_presence_tests_name_the_type() {
    assert_eq!(no_such_field(at(0), "z", "Point").message, "`Point` has no field `z`");
    let method = no_such_method(at(0), "frobnicate", "Doc");
    assert_eq!(method.message, "`Doc` has no method `frobnicate`");
    assert_eq!(method.notes.len(), 1);
    let presence = not_nullable(at(0), "Int");
    assert_eq!(presence.message, "this value is never absent");
    assert_eq!(presence.labels[0].message, "`Int` is not a nullable type");
    assert_eq!(presence.notes[0], "`?` tests a `T?` for a value; on a `T` it is always true");
}

#[test]
fn an_unsatisfied_bound_points_at_the_bound_as_written() {
    let d = unsatisfied_bound(at(0), "Doc", "Summarize", "T", at(40));
    assert_eq!(d.code.0, UNSATISFIED_BOUND);
    assert_eq!(d.message, "`Doc` does not implement `Summarize`");
    assert_eq!(d.labels[0].message, "`T` is `Doc` here");
    assert!(d.labels[0].primary);
    assert_eq!(d.labels[1].span, at(40));
    assert_eq!(d.labels[1].message, "`T` was declared `Summarize`");
    assert!(!d.labels[1].primary);
    assert_eq!(d.notes[0], "an implementation is a block the program writes: `Doc implements Summarize:`");
}

#[test]
fn an_uninferable_receiver_names_what_is_open() {
    let d = uninferable_receiver(at(0), "Wrapper", "holding", &["T".to_string()], false);
    assert_eq!(d.code.0, UNINFERABLE_RECEIVER);
    assert_eq!(d.message, "the type argument of `Wrapper` cannot be inferred here");
    assert_eq!(d.labels[0].message, "nothing here fixes `T`");
    assert_eq!(
        d.notes[1],
        "write the instantiation, in parentheses so that the `.` applies to the whole type: `(Wrapper of ..).holding(..)`"
    );
    let two = uninferable_receiver(at(0), "Pair", "of", &["A".to_string(), "B".to_string()], false);
    assert_eq!(two.message, "the type arguments of `Pair` cannot be inferred here");
    assert_eq!(two.labels[0].message, "nothing here fixes `A`, `B`");
    let consts = uninferable_receiver(at(0), "Grid", "new", &[], true);
    assert_eq!(consts.message, "the type argument of `Grid` cannot be inferred here");
    assert_eq!(consts.labels[0].message, "`Grid`'s const argument can only come from an instantiation");
    let mixed = uninferable_receiver(at(0), "Grid", "new", &["T".to_string()], true);
    assert_eq!(mixed.message, "the type arguments of `Grid` cannot be inferred here");
}

#[test]
fn ambiguous_and_unmatched_instances_list_what_each_accepts() {
    let accepts = vec![(at(10), "`Int`".to_string()), (at(20), "`F64`".to_string())];
    let d = instances_not_narrowed(at(0), "from", "Celsius", "From", "an integer literal", &accepts, true);
    assert_eq!(d.code.0, AMBIGUOUS_METHOD);
    assert_eq!(d.message, "`from` on `Celsius` could be 2 implementations of `From`");
    assert_eq!(d.labels[0].message, "supplied an integer literal, which fits all of them");
    assert_eq!(d.labels[1].message, "one accepts `Int`");
    assert_eq!(d.labels[2].span, at(20));
    assert_eq!(d.notes.len(), 2);
    let plain = instances_not_narrowed(at(0), "from", "Celsius", "From", "`I64`", &accepts, false);
    assert_eq!(plain.notes.len(), 1);

    let none = no_matching_instance(at(0), "from", "Celsius", "From", "`String`", &accepts);
    assert_eq!(none.code.0, NO_MATCHING_IMPLEMENTATION);
    assert_eq!(none.message, "no implementation of `From` for `Celsius` accepts `String`");
    assert_eq!(none.labels[0].message, "`from` was given `String`");
    assert_eq!(none.labels[1].message, "this one accepts `Int`");
}

#[test]
fn a_suffix_names_its_primitive() {
    assert_eq!(suffix_name(NumSuffix::I32), "I32");
    assert_eq!(suffix_name(NumSuffix::U8), "U8");
    assert_eq!(suffix_name(NumSuffix::F64), "F64");
}

#[test]
fn only_a_lone_parameter_is_a_bare_const_parameter() {
    let width = NormalForm { constant: 0, terms: vec![(DefId(3), 1)] };
    assert_eq!(bare_const_param(&width), Some(DefId(3)));
    let plus_one = NormalForm { constant: 1, terms: vec![(DefId(3), 1)] };
    assert_eq!(bare_const_param(&plus_one), None);
    let doubled = NormalForm { constant: 0, terms: vec![(DefId(3), 2)] };
    assert_eq!(bare_const_param(&doubled), None);
    let constant = NormalForm { constant: 0, terms: vec![] };
    assert_eq!(bare_const_param(&constant), None);
}

fn parameters() -> Vec<science::assign::Definition> {
    ["n", "m", "k"]
        .iter()
        .enumerate()
        .map(|(i, name)| science::assign::Definition {
            id: DefId(i as u32),
            kind: science::assign::DefKind::Param,
            name: name.to_string(),
            builtin: false,
            span: at(i),
        })
        .collect()
}

fn form(constant: i128, terms: Vec<(u32, i128)>) -> NormalForm {
    NormalForm { constant, terms: terms.into_iter().map(|(d, c)| (DefId(d), c)).collect() }
}

#[test]
fn two_distinct_parameters_are_explained_as_such() {
    let lines = science::diagnostics::explain(&form(0, vec![(0, 1)]), &form(0, vec![(1, 1)]), &parameters());
    assert_eq!(
        lines,
        vec![
            "`n` and `m` are distinct const parameters, so no assignment of values".to_string(),
            "makes them equal for every instantiation".to_string(),
        ]
    );
}

#[test]
fn coefficients_and_constants_are_compared_flatly() {
    let defs = parameters();
    let coefficients = science::diagnostics::explain(&form(0, vec![(0, 2)]), &form(0, vec![(0, 3)]), &defs);
    assert_eq!(coefficients, vec!["`n` has coefficient 2 on the left and 3 on the right".to_string()]);
    let constants = science::diagnostics::explain(&form(1, vec![(2, 1)]), &form(-2, vec![(2, 1)]), &defs);
    assert_eq!(constants, vec!["the constant terms differ: 1 on the left, -2 on the right".to_string()]);
    let one_side = science::diagnostics::explain(&form(0, vec![(0, 1), (2, 1)]), &form(0, vec![(2, 1)]), &defs);
    assert_eq!(one_side, vec!["`n` appears on the left and not on the right".to_string()]);
    let other_side = science::diagnostics::explain(&form(0, vec![]), &form(0, vec![(1, 4), (0, 1)]), &defs);
    assert_eq!(other_side, vec!["`n` and `m` appears on the right and not on the left".to_string()]);
    let same = science::diagnostics::explain(&form(3, vec![(0, 1)]), &form(3, vec![(0, 1)]), &defs);
    assert_eq!(same, vec!["the two normal forms are not structurally equal".to_string()]);
}

#[test]
fn a_value_without_display_names_the_interface() {
    let d = science::check::not_displayable(Span { start: 4, end: 9 }, "Doc?");
    assert_eq!(d.code.0, 275);
    assert_eq!(d.message, "`Doc?` cannot be interpolated: it does not implement `Display`");
    assert_eq!(d.labels[0].message, "this is `Doc?`");
    assert!(d.notes[0].starts_with("an interpolation renders its value through `Display`."));
}

#[test]
fn print_with_no_value_says_how_a_blank_line_is_written() {
    let none = science::check::print_takes_one_value(Span { start: 0, end: 7 }, "print", 0);
    assert_eq!(none.code.0, 275);
    assert_eq!(none.message, "`print` takes one value");
    assert_eq!(none.labels[0].message, "0 arguments were supplied");
    assert_eq!(none.notes[0], "a blank line is `print(\"\")`: there are no default arguments");
    let two = science::check::print_takes_one_value(Span { start: 0, end: 7 }, "write", 2);
    assert_eq!(two.labels[0].message, "2 arguments were supplied");
    assert_eq!(two.notes[0], "interpolate instead: `write(f\"\u{2026} {value}\")`");
}

#[test]
fn an_array_element_mismatch_points_at_both_elements() {
    let d = science::check::array_element_mismatch(
        Span { start: 5, end: 8 },
        "`Int`",
        "an integer literal",
        Span { start: 1, end: 2 },
    );
    assert_eq!(d.code.0, 281);
    assert_eq!(d.message, "the elements of this array literal do not have one type");
    assert_eq!(d.labels.len(), 2);
    assert!(d.labels[0].primary);
    assert_eq!(d.labels[0].message, "this is an integer literal");
    assert!(!d.labels[1].primary);
    assert_eq!(d.labels[1].span, Span { start: 1, end: 2 });
    assert_eq!(d.labels[1].message, "this is `Int`");
}

#[test]
fn the_other_value_reports_carry_their_codes() {
    let empty = science::check::empty_array_no_type(Span { start: 0, end: 2 });
    assert_eq!(empty.code.0, 282);
    assert_eq!(empty.labels[0].message, "nothing here says what `[]` holds");
    assert!(empty.notes[0].ends_with("`let xs: Array of F64 be []`"));
    let range = science::check::range_index_needs_slice(Span { start: 0, end: 5 }, "Array of Int");
    assert_eq!(range.code.0, 538);
    assert_eq!(range.labels[0].message, "slicing a `Array of Int` is not implemented");
    let infer = science::check::cannot_infer(Span { start: 0, end: 1 });
    assert_eq!(infer.code.0, 526);
    assert_eq!(infer.message, "the type of this value cannot be inferred");
    let op = science::check::no_operator_implementation(Span { start: 0, end: 1 }, "+", "Doc", "Add");
    assert_eq!(op.code.0, 535);
    assert_eq!(op.message, "`Doc` does not implement `Add`");
    assert_eq!(op.labels[0].message, "`+` needs `Add` and `Doc` has no implementation of it");
    assert_eq!(
        op.notes[0],
        "every operator is an interface method: the block \n         `Doc implements Add:` is what gives `Doc` this operator"
    );
}

#[test]
fn an_overflow_is_reported_where_it_happened() {
    let at = Span { start: 10, end: 15 };
    let fallback = Span { start: 0, end: 40 };
    let d = science::diagnostics::overflowed(ConstEvalError::Overflow { at: Some(at) }, fallback);
    assert_eq!(d.code.0, 260);
    assert_eq!(d.message, "this const expression overflows");
    assert_eq!(d.labels[0].span, at);
    assert_eq!(d.labels[0].message, "the value leaves the range of a 128-bit signed integer");
    assert!(d.notes[0].starts_with("const expressions are evaluated exactly; there is no wrapping"));
    let unplaced = science::diagnostics::overflowed(ConstEvalError::Overflow { at: None }, fallback);
    assert_eq!(unplaced.labels[0].span, fallback);
}
