//! The diagnostic codes the type checker emits.
//!
//! `SC0250`-`SC0299` and `SC0520`-`SC0579` are the type checker's bands.
//! `SC0521` and `SC0522` are reserved there for checks the type checker does
//! not make, and `SC0140` is borrowed rather than claimed.

use vstd::prelude::*;

verus! {

/// A diagnostic code: `Code(525)` is `SC0525`. The constants below are
/// the numbers of the codes.
#[derive(Debug, Clone, Copy, PartialEq, Eq, PartialOrd, Ord, Hash)]
pub struct Code(pub u16);

/// A `match` some value of its scrutinee's type reaches no arm of.
pub const NON_EXHAUSTIVE_MATCH: u16 = 250;

/// A value interpolated, or printed, that cannot be rendered; or an output
/// call that does not supply one value.
pub const NOT_DISPLAYABLE: u16 = 275;

/// Two elements of one array literal whose types do not unify.
pub const ARRAY_ELEMENT_MISMATCH: u16 = 281;

/// `[]` where nothing says what it holds.
pub const EMPTY_ARRAY_NO_TYPE: u16 = 282;

/// A const expression the language does not admit.
pub const NOT_A_CONST_EXPRESSION: u16 = 260;

/// Two const expressions cannot be shown equal.
pub const NOT_PROVABLY_EQUAL: u16 = 261;

/// `T??`.
pub const DOUBLE_NULLABLE: u16 = 520;

/// A const expression, or a const generic parameter, where a type is expected.
pub const CONST_WHERE_TYPE_EXPECTED: u16 = 523;

/// A type alias that expands into itself.
pub const CYCLIC_ALIAS: u16 = 524;

/// A value that does not fit the slot it is in.
pub const MISMATCHED_TYPES: u16 = 525;

/// A value whose type is a hole nothing filled.
pub const TYPE_ANNOTATIONS_NEEDED: u16 = 526;

/// A call with the wrong number of arguments.
pub const WRONG_ARGUMENT_COUNT: u16 = 527;

/// A field the receiver's type does not have.
pub const NO_SUCH_FIELD: u16 = 528;

/// `let a, b be f()` where the value is not a pair.
pub const BINDING_COUNT_MISMATCH: u16 = 529;

/// `e?` where `e` is not nullable.
pub const PRESENCE_TEST_ON_NON_NULLABLE: u16 = 530;

/// One method name, two implementations, and no rule that picks.
pub const AMBIGUOUS_METHOD: u16 = 531;

/// A method the receiver's type does not have.
pub const NO_SUCH_METHOD: u16 = 532;

/// The arguments fit no implementation of the interface.
pub const NO_MATCHING_IMPLEMENTATION: u16 = 533;

/// A generic argument that does not satisfy the bound the callee declared.
pub const UNSATISFIED_BOUND: u16 = 534;

/// An operator whose operand's type does not implement the interface the
/// operator dispatches to.
pub const NO_OPERATOR_IMPLEMENTATION: u16 = 535;

/// A generic type reached through its bare name at an associated call, whose
/// own type arguments nothing at the call fixes.
pub const UNINFERABLE_RECEIVER: u16 = 536;

/// A `match` arm no value reaches, because the arms above it cover
/// everything it matches.
pub const UNREACHABLE_ARM: u16 = 537;

/// A range written as an index.
pub const RANGE_INDEX_NEEDS_SLICE: u16 = 538;

/// An interface method with no body that an `implements` block does not
/// write.
pub const UNIMPLEMENTED_INTERFACE_METHOD: u16 = 539;

/// A method in an `implements` block that the interface does not declare.
pub const NOT_AN_INTERFACE_METHOD: u16 = 540;

/// A method whose signature is not the one the interface declared.
pub const MISMATCHED_IMPLEMENTATION: u16 = 541;

/// A module-level `const` whose initialiser is not a literal this compiler
/// can evaluate yet.
pub const CONST_INITIALISER_NOT_A_LITERAL: u16 = 542;

/// An error value dropped unchecked: a code another part of the compiler
/// owns, which the type checker implements and does not claim.
pub const UNCHECKED_ERROR: u16 = 140;

/// Every code the type checker emits from its own bands, by number.
pub open spec fn all_numbers() -> Seq<u16> {
    seq![260, 261, 520, 523, 524, 525, 526, 527, 528, 529, 530, 531, 532, 533, 534, 535, 536]
}

/// Every code the type checker emits from its own bands, in the order they
/// are declared. `UNCHECKED_ERROR` is not among them.
pub fn all() -> (codes: Vec<Code>)
    ensures
        codes@.len() == all_numbers().len(),
        forall|k: int| 0 <= k < codes@.len() ==> (#[trigger] codes@[k]).0 == all_numbers()[k],
{
    let codes = vec![
        Code(NOT_A_CONST_EXPRESSION),
        Code(NOT_PROVABLY_EQUAL),
        Code(DOUBLE_NULLABLE),
        Code(CONST_WHERE_TYPE_EXPECTED),
        Code(CYCLIC_ALIAS),
        Code(MISMATCHED_TYPES),
        Code(TYPE_ANNOTATIONS_NEEDED),
        Code(WRONG_ARGUMENT_COUNT),
        Code(NO_SUCH_FIELD),
        Code(BINDING_COUNT_MISMATCH),
        Code(PRESENCE_TEST_ON_NON_NULLABLE),
        Code(AMBIGUOUS_METHOD),
        Code(NO_SUCH_METHOD),
        Code(NO_MATCHING_IMPLEMENTATION),
        Code(UNSATISFIED_BOUND),
        Code(NO_OPERATOR_IMPLEMENTATION),
        Code(UNINFERABLE_RECEIVER),
    ];
    codes
}

/// **Every code is in a band the type checker owns**, no code is used twice,
/// the two codes reserved for checks it does not make are free, and the
/// borrowed `SC0140` is not claimed.
pub proof fn law_codes_are_allocated()
    ensures
        forall|k: int|
            0 <= k < all_numbers().len() ==> (250 <= #[trigger] all_numbers()[k] <= 299 || 520
                <= all_numbers()[k] <= 579),
        forall|k: int, l: int|
            0 <= k < l < all_numbers().len() ==> #[trigger] all_numbers()[k] != #[trigger] all_numbers()[l],
        !all_numbers().contains(521),
        !all_numbers().contains(522),
        !all_numbers().contains(140),
{
    let s = all_numbers();
    assert forall|k: int, l: int| 0 <= k < l < s.len() implies #[trigger] s[k] != #[trigger] s[l] by {
        assert forall|p: int| 0 <= p < s.len() - 1 implies #[trigger] s[p] < s[p + 1] by {
        }
        lemma_strictly_increasing(s, k, l);
    }
}

proof fn lemma_strictly_increasing(s: Seq<u16>, k: int, l: int)
    requires
        0 <= k < l < s.len(),
        forall|p: int| 0 <= p < s.len() - 1 ==> #[trigger] s[p] < s[p + 1],
    ensures
        s[k] < s[l],
    decreases l - k,
{
    if l > k + 1 {
        lemma_strictly_increasing(s, k, l - 1);
        assert(s[l - 1] < s[l]);
    } else {
        assert(s[k] < s[k + 1]);
    }
}

} // verus!
