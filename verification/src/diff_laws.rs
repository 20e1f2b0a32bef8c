//! What every diff this library produces is: an edit script that turns the
//! expectation into the output, with the fewest changes a script over whole
//! lines can have.

use vstd::prelude::*;

use crate::diff::{
    added_from, changes, diff_lines, lcs_len, positional_from, removed_from, script, ChangeView,
    LCS_LINE_LIMIT,
};

verus! {

/// The lines a script keeps or removes, numbered as the expectation numbers them.
pub open spec fn expected_side(cs: Seq<ChangeView>) -> Seq<(int, Seq<char>)>
    decreases cs.len(),
{
    if cs.len() == 0 {
        seq![]
    } else {
        match cs[0] {
            ChangeView::Same { expected_line, text, .. } => seq![(expected_line, text)]
                + expected_side(cs.drop_first()),
            ChangeView::Removed { expected_line, text } => seq![(expected_line, text)]
                + expected_side(cs.drop_first()),
            ChangeView::Added { .. } => expected_side(cs.drop_first()),
        }
    }
}

/// The lines a script keeps or adds, numbered as the output numbers them.
pub open spec fn actual_side(cs: Seq<ChangeView>) -> Seq<(int, Seq<char>)>
    decreases cs.len(),
{
    if cs.len() == 0 {
        seq![]
    } else {
        match cs[0] {
            ChangeView::Same { actual_line, text, .. } => seq![(actual_line, text)]
                + actual_side(cs.drop_first()),
            ChangeView::Added { actual_line, text } => seq![(actual_line, text)]
                + actual_side(cs.drop_first()),
            ChangeView::Removed { .. } => actual_side(cs.drop_first()),
        }
    }
}

/// How many lines a script keeps.
pub open spec fn same_count(cs: Seq<ChangeView>) -> nat
    decreases cs.len(),
{
    if cs.len() == 0 {
        0
    } else {
        (if cs[0] is Same {
            1nat
        } else {
            0nat
        }) + same_count(cs.drop_first())
    }
}

/// The lines `a[i..]`, each with its 1-based line number.
pub open spec fn numbered_from(a: Seq<Seq<char>>, i: int) -> Seq<(int, Seq<char>)> {
    Seq::new((a.len() - i) as nat, |k: int| (i + k + 1, a[i + k]))
}

/// The lines of `a`, each with its 1-based line number.
pub open spec fn numbered(a: Seq<Seq<char>>) -> Seq<(int, Seq<char>)> {
    numbered_from(a, 0)
}

/// Whether `cs` is an edit script from `a` to `b`: read down the expectation's
/// side it is `a`, read down the output's side it is `b`, each line at its
/// own number.
pub open spec fn is_edit_script(cs: Seq<ChangeView>, a: Seq<Seq<char>>, b: Seq<Seq<char>>) -> bool {
    expected_side(cs) == numbered(a) && actual_side(cs) == numbered(b)
}

proof fn lemma_cons(x: ChangeView, rest: Seq<ChangeView>)
    ensures
        (seq![x] + rest)[0] == x,
        (seq![x] + rest).drop_first() == rest,
        (seq![x] + rest).len() == rest.len() + 1,
{
    assert((seq![x] + rest).drop_first() =~= rest);
}

proof fn lemma_numbered_step(a: Seq<Seq<char>>, i: int)
    requires
        0 <= i < a.len(),
    ensures
        numbered_from(a, i) == seq![(i + 1, a[i])] + numbered_from(a, i + 1),
{
    assert(numbered_from(a, i) =~= seq![(i + 1, a[i])] + numbered_from(a, i + 1));
}

proof fn lemma_numbered_end(a: Seq<Seq<char>>, i: int)
    requires
        i == a.len(),
    ensures
        numbered_from(a, i) == Seq::<(int, Seq<char>)>::empty(),
{
    assert(numbered_from(a, i) =~= Seq::<(int, Seq<char>)>::empty());
}

/// Both sides of the longest-common-subsequence script are the two inputs.
proof fn lemma_script_sides(a: Seq<Seq<char>>, b: Seq<Seq<char>>, i: int, j: int)
    requires
        0 <= i <= a.len(),
        0 <= j <= b.len(),
    ensures
        expected_side(script(a, b, i, j)) == numbered_from(a, i),
        actual_side(script(a, b, i, j)) == numbered_from(b, j),
        same_count(script(a, b, i, j)) == lcs_len(a, b, i, j),
    decreases (a.len() + b.len()) - (i + j),
{
    let s = script(a, b, i, j);
    if i == a.len() && j == b.len() {
        lemma_numbered_end(a, i);
        lemma_numbered_end(b, j);
    } else if i == a.len() {
        lemma_script_sides(a, b, i, j + 1);
        lemma_cons(ChangeView::Added { actual_line: j + 1, text: b[j] }, script(a, b, i, j + 1));
        lemma_numbered_step(b, j);
        lemma_numbered_end(a, i);
    } else if j == b.len() {
        lemma_script_sides(a, b, i + 1, j);
        lemma_cons(ChangeView::Removed { expected_line: i + 1, text: a[i] }, script(a, b, i + 1, j));
        lemma_numbered_step(a, i);
        lemma_numbered_end(b, j);
    } else if a[i] == b[j] {
        lemma_script_sides(a, b, i + 1, j + 1);
        lemma_cons(
            ChangeView::Same { expected_line: i + 1, actual_line: j + 1, text: a[i] },
            script(a, b, i + 1, j + 1),
        );
        lemma_numbered_step(a, i);
        lemma_numbered_step(b, j);
    } else if lcs_len(a, b, i + 1, j) >= lcs_len(a, b, i, j + 1) {
        lemma_script_sides(a, b, i + 1, j);
        lemma_cons(ChangeView::Removed { expected_line: i + 1, text: a[i] }, script(a, b, i + 1, j));
        lemma_numbered_step(a, i);
    } else {
        lemma_script_sides(a, b, i, j + 1);
        lemma_cons(ChangeView::Added { actual_line: j + 1, text: b[j] }, script(a, b, i, j + 1));
        lemma_numbered_step(b, j);
    }
}

proof fn lemma_removed_sides(a: Seq<Seq<char>>, k: int)
    requires
        0 <= k <= a.len(),
    ensures
        expected_side(removed_from(a, k)) == numbered_from(a, k),
        actual_side(removed_from(a, k)) == Seq::<(int, Seq<char>)>::empty(),
    decreases a.len() - k,
{
    if k < a.len() {
        lemma_removed_sides(a, k + 1);
        lemma_cons(ChangeView::Removed { expected_line: k + 1, text: a[k] }, removed_from(a, k + 1));
        lemma_numbered_step(a, k);
    } else {
        lemma_numbered_end(a, k);
    }
}

proof fn lemma_added_sides(b: Seq<Seq<char>>, k: int)
    requires
        0 <= k <= b.len(),
    ensures
        actual_side(added_from(b, k)) == numbered_from(b, k),
        expected_side(added_from(b, k)) == Seq::<(int, Seq<char>)>::empty(),
    decreases b.len() - k,
{
    if k < b.len() {
        lemma_added_sides(b, k + 1);
        lemma_cons(ChangeView::Added { actual_line: k + 1, text: b[k] }, added_from(b, k + 1));
        lemma_numbered_step(b, k);
    } else {
        lemma_numbered_end(b, k);
    }
}

/// The sides of a concatenation are the concatenations of the sides.
proof fn lemma_sides_append(x: Seq<ChangeView>, y: Seq<ChangeView>)
    ensures
        expected_side(x + y) == expected_side(x) + expected_side(y),
        actual_side(x + y) == actual_side(x) + actual_side(y),
        same_count(x + y) == same_count(x) + same_count(y),
    decreases x.len(),
{
    if x.len() == 0 {
        assert(x + y =~= y);
    } else {
        lemma_sides_append(x.drop_first(), y);
        assert((x + y).drop_first() =~= x.drop_first() + y);
        assert((x + y)[0] == x[0]);
    }
}

proof fn lemma_positional_sides(a: Seq<Seq<char>>, b: Seq<Seq<char>>, k: int)
    requires
        0 <= k <= a.len(),
        k <= b.len(),
    ensures
        expected_side(positional_from(a, b, k)) == numbered_from(a, k),
        actual_side(positional_from(a, b, k)) == numbered_from(b, k),
    decreases a.len() - k,
{
    if k >= a.len() || k >= b.len() {
        lemma_removed_sides(a, k);
        lemma_added_sides(b, k);
        lemma_sides_append(removed_from(a, k), added_from(b, k));
        if k >= a.len() {
            lemma_numbered_end(a, k);
            assert(Seq::<(int, Seq<char>)>::empty() + numbered_from(b, k) =~= numbered_from(b, k));
        } else {
            lemma_numbered_end(b, k);
            assert(numbered_from(a, k) + Seq::<(int, Seq<char>)>::empty() =~= numbered_from(a, k));
        }
    } else if a[k] == b[k] {
        lemma_positional_sides(a, b, k + 1);
        lemma_cons(
            ChangeView::Same { expected_line: k + 1, actual_line: k + 1, text: a[k] },
            positional_from(a, b, k + 1),
        );
        lemma_numbered_step(a, k);
        lemma_numbered_step(b, k);
    } else {
        lemma_positional_sides(a, b, k + 1);
        let r = ChangeView::Removed { expected_line: k + 1, text: a[k] };
        let d = ChangeView::Added { actual_line: k + 1, text: b[k] };
        let pair = seq![r, d];
        lemma_sides_append(pair, positional_from(a, b, k + 1));
        lemma_cons(d, Seq::<ChangeView>::empty());
        lemma_cons(r, seq![d]);
        assert(seq![d] =~= seq![d] + Seq::<ChangeView>::empty());
        assert(pair =~= seq![r] + seq![d]);
        assert(expected_side(seq![d]) == expected_side(Seq::<ChangeView>::empty()));
        assert(actual_side(seq![d]) == seq![(k + 1, b[k])] + actual_side(Seq::<ChangeView>::empty()));
        assert(expected_side(pair) =~= seq![(k + 1, a[k])]);
        assert(actual_side(pair) =~= seq![(k + 1, b[k])]);
        lemma_numbered_step(a, k);
        lemma_numbered_step(b, k);
    }
}

/// Dropping one line from either side shortens a longest common subsequence
/// by at most one, and never lengthens it.
proof fn lemma_lcs_steps(a: Seq<Seq<char>>, b: Seq<Seq<char>>, i: int, j: int)
    requires
        0 <= i,
        0 <= j,
    ensures
        lcs_len(a, b, i + 1, j) <= lcs_len(a, b, i, j),
        lcs_len(a, b, i, j + 1) <= lcs_len(a, b, i, j),
        lcs_len(a, b, i, j) <= 1 + lcs_len(a, b, i + 1, j),
        lcs_len(a, b, i, j) <= 1 + lcs_len(a, b, i, j + 1),
    decreases (a.len() + b.len()) - (i + j),
{
    if i < a.len() && j < b.len() {
        lemma_lcs_steps(a, b, i + 1, j);
        lemma_lcs_steps(a, b, i, j + 1);
    }
}

/// No edit script from `a[i..]` to `b[j..]` keeps more lines than a longest
/// common subsequence has.
proof fn lemma_script_optimal(cs: Seq<ChangeView>, a: Seq<Seq<char>>, b: Seq<Seq<char>>, i: int, j: int)
    requires
        0 <= i <= a.len(),
        0 <= j <= b.len(),
        expected_side(cs) == numbered_from(a, i),
        actual_side(cs) == numbered_from(b, j),
    ensures
        same_count(cs) <= lcs_len(a, b, i, j),
    decreases cs.len(),
{
    if cs.len() > 0 {
        let rest = cs.drop_first();
        match cs[0] {
            ChangeView::Same { expected_line, actual_line, text } => {
                assert(numbered_from(a, i).len() > 0);
                assert(numbered_from(b, j).len() > 0);
                assert(numbered_from(a, i)[0] == (i + 1, a[i]));
                assert(numbered_from(b, j)[0] == (j + 1, b[j]));
                assert((seq![(expected_line, text)] + expected_side(rest))[0] == (expected_line, text));
                assert((seq![(actual_line, text)] + actual_side(rest))[0] == (actual_line, text));
                lemma_numbered_step(a, i);
                lemma_numbered_step(b, j);
                assert(expected_side(rest) =~= numbered_from(a, i + 1)) by {
                    assert(expected_side(rest) =~= (seq![(expected_line, text)] + expected_side(
                        rest,
                    )).drop_first());
                }
                assert(actual_side(rest) =~= numbered_from(b, j + 1)) by {
                    assert(actual_side(rest) =~= (seq![(actual_line, text)] + actual_side(
                        rest,
                    )).drop_first());
                }
                lemma_script_optimal(rest, a, b, i + 1, j + 1);
            },
            ChangeView::Removed { expected_line, text } => {
                assert(numbered_from(a, i).len() > 0);
                lemma_numbered_step(a, i);
                assert(expected_side(rest) =~= numbered_from(a, i + 1)) by {
                    assert(expected_side(rest) =~= (seq![(expected_line, text)] + expected_side(
                        rest,
                    )).drop_first());
                }
                lemma_script_optimal(rest, a, b, i + 1, j);
                lemma_lcs_steps(a, b, i, j);
            },
            ChangeView::Added { actual_line, text } => {
                assert(numbered_from(b, j).len() > 0);
                lemma_numbered_step(b, j);
                assert(actual_side(rest) =~= numbered_from(b, j + 1)) by {
                    assert(actual_side(rest) =~= (seq![(actual_line, text)] + actual_side(
                        rest,
                    )).drop_first());
                }
                lemma_script_optimal(rest, a, b, i, j + 1);
                lemma_lcs_steps(a, b, i, j);
            },
        }
    }
}

/// **The diff is an edit script.** Whatever path produced it, reading the
/// diff of two line lists down the expectation's side gives the expected
/// lines and reading it down the output's side gives the actual lines, each
/// at its own 1-based line number.
pub proof fn law_diff_is_edit_script(a: Seq<Seq<char>>, b: Seq<Seq<char>>)
    ensures
        is_edit_script(diff_lines(a, b), a, b),
{
    if a.len() > LCS_LINE_LIMIT || b.len() > LCS_LINE_LIMIT {
        lemma_positional_sides(a, b, 0);
    } else {
        lemma_script_sides(a, b, 0, 0);
    }
}

/// **Within the limit the diff is minimal.** It keeps exactly as many lines
/// as a longest common subsequence has, and no edit script between the same
/// two line lists keeps more.
pub proof fn law_diff_is_minimal(a: Seq<Seq<char>>, b: Seq<Seq<char>>, other: Seq<ChangeView>)
    requires
        a.len() <= LCS_LINE_LIMIT,
        b.len() <= LCS_LINE_LIMIT,
        is_edit_script(other, a, b),
    ensures
        same_count(diff_lines(a, b)) == lcs_len(a, b, 0, 0),
        same_count(other) <= same_count(diff_lines(a, b)),
{
    lemma_script_sides(a, b, 0, 0);
    lemma_script_optimal(other, a, b, 0, 0);
}

proof fn lemma_script_identical(a: Seq<Seq<char>>, i: int)
    requires
        0 <= i <= a.len(),
    ensures
        forall|k: int| 0 <= k < script(a, a, i, i).len() ==> (#[trigger] script(a, a, i, i)[k]) is Same,
        script(a, a, i, i).len() == a.len() - i,
    decreases a.len() - i,
{
    if i < a.len() {
        lemma_script_identical(a, i + 1);
        lemma_cons(
            ChangeView::Same { expected_line: i + 1, actual_line: i + 1, text: a[i] },
            script(a, a, i + 1, i + 1),
        );
        assert forall|k: int| 0 <= k < script(a, a, i, i).len() implies (#[trigger] script(
            a,
            a,
            i,
            i,
        )[k]) is Same by {
            if k > 0 {
                assert(script(a, a, i, i)[k] == script(a, a, i + 1, i + 1)[k - 1]);
            }
        }
    }
}

proof fn lemma_positional_identical(a: Seq<Seq<char>>, k: int)
    requires
        0 <= k <= a.len(),
    ensures
        forall|p: int|
            0 <= p < positional_from(a, a, k).len() ==> (#[trigger] positional_from(a, a, k)[p]) is Same,
        positional_from(a, a, k).len() == a.len() - k,
    decreases a.len() - k,
{
    if k < a.len() {
        lemma_positional_identical(a, k + 1);
        lemma_cons(
            ChangeView::Same { expected_line: k + 1, actual_line: k + 1, text: a[k] },
            positional_from(a, a, k + 1),
        );
        assert forall|p: int| 0 <= p < positional_from(a, a, k).len() implies (#[trigger] positional_from(
            a,
            a,
            k,
        )[p]) is Same by {
            if p > 0 {
                assert(positional_from(a, a, k)[p] == positional_from(a, a, k + 1)[p - 1]);
            }
        }
    } else {
        assert(removed_from(a, k) == Seq::<ChangeView>::empty());
        assert(added_from(a, k) == Seq::<ChangeView>::empty());
        assert(positional_from(a, a, k) =~= Seq::<ChangeView>::empty());
    }
}

/// **Identical text is all context**: the diff of a line list with itself has
/// one entry per line, and every entry is a line present on both sides.
pub proof fn law_identical_is_all_context(a: Seq<Seq<char>>)
    ensures
        diff_lines(a, a).len() == a.len(),
        forall|k: int| 0 <= k < diff_lines(a, a).len() ==> (#[trigger] diff_lines(a, a)[k]) is Same,
{
    if a.len() > LCS_LINE_LIMIT {
        lemma_positional_identical(a, 0);
    } else {
        lemma_script_identical(a, 0);
    }
}

} // verus!
