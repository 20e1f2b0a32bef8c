//! A line-by-line diff, rendered for a human reading test output.
//!
//! The edit script is a longest-common-subsequence over lines. Past
//! `LCS_LINE_LIMIT` lines on either side it falls back to a positional
//! comparison rather than allocating a large table.

use vstd::prelude::*;

use crate::text::{
    decimal, lines, lines_of, pad_left, push_char, push_decimal, push_spaces, push_str, spaces,
    str_eq, views,
};

verus! {

/// Above this many lines on either side, fall back to a positional diff.
pub const LCS_LINE_LIMIT: usize = 2000;

/// One line of the diff, with the 1-based line numbers it had on each side.
#[derive(Debug, Clone, Copy, PartialEq, Eq)]
pub enum Change<'a> {
    /// Present in both, at `expected_line` and `actual_line`.
    Same { expected_line: usize, actual_line: usize, text: &'a str },
    /// Present only in the expectation.
    Removed { expected_line: usize, text: &'a str },
    /// Present only in the output just produced.
    Added { actual_line: usize, text: &'a str },
}

/// What a [`Change`] says, with its text as characters.
pub ghost enum ChangeView {
    Same { expected_line: int, actual_line: int, text: Seq<char> },
    Removed { expected_line: int, text: Seq<char> },
    Added { actual_line: int, text: Seq<char> },
}

impl<'a> View for Change<'a> {
    type V = ChangeView;

    open spec fn view(&self) -> ChangeView {
        match *self {
            Change::Same { expected_line, actual_line, text } => ChangeView::Same {
                expected_line: expected_line as int,
                actual_line: actual_line as int,
                text: text@,
            },
            Change::Removed { expected_line, text } => ChangeView::Removed {
                expected_line: expected_line as int,
                text: text@,
            },
            Change::Added { actual_line, text } => ChangeView::Added {
                actual_line: actual_line as int,
                text: text@,
            },
        }
    }
}

/// The views of a list of changes.
pub open spec fn changes_view(v: Seq<Change>) -> Seq<ChangeView> {
    v.map_values(|c: Change| c@)
}

/// The length of a longest common subsequence of `a[i..]` and `b[j..]`.
pub open spec fn lcs_len(a: Seq<Seq<char>>, b: Seq<Seq<char>>, i: int, j: int) -> nat
    decreases (a.len() + b.len()) - (i + j),
{
    if i < 0 || j < 0 || i >= a.len() || j >= b.len() {
        0
    } else if a[i] == b[j] {
        1 + lcs_len(a, b, i + 1, j + 1)
    } else {
        let down = lcs_len(a, b, i + 1, j);
        let right = lcs_len(a, b, i, j + 1);
        if down >= right {
            down
        } else {
            right
        }
    }
}

/// The edit script from `a[i..]` to `b[j..]` that follows a longest common
/// subsequence: a shared line is kept, and otherwise the side whose removal
/// keeps the longer common subsequence goes first, a removal winning a tie.
pub open spec fn script(a: Seq<Seq<char>>, b: Seq<Seq<char>>, i: int, j: int) -> Seq<ChangeView>
    decreases (a.len() + b.len()) - (i + j),
{
    if i < 0 || j < 0 || i > a.len() || j > b.len() || (i == a.len() && j == b.len()) {
        seq![]
    } else if i == a.len() {
        seq![ChangeView::Added { actual_line: j + 1, text: b[j] }] + script(a, b, i, j + 1)
    } else if j == b.len() {
        seq![ChangeView::Removed { expected_line: i + 1, text: a[i] }] + script(a, b, i + 1, j)
    } else if a[i] == b[j] {
        seq![ChangeView::Same { expected_line: i + 1, actual_line: j + 1, text: a[i] }]
            + script(a, b, i + 1, j + 1)
    } else if lcs_len(a, b, i + 1, j) >= lcs_len(a, b, i, j + 1) {
        seq![ChangeView::Removed { expected_line: i + 1, text: a[i] }] + script(a, b, i + 1, j)
    } else {
        seq![ChangeView::Added { actual_line: j + 1, text: b[j] }] + script(a, b, i, j + 1)
    }
}

/// Every line of `a` from `k` on, removed.
pub open spec fn removed_from(a: Seq<Seq<char>>, k: int) -> Seq<ChangeView>
    decreases a.len() - k,
{
    if k < 0 || k >= a.len() {
        seq![]
    } else {
        seq![ChangeView::Removed { expected_line: k + 1, text: a[k] }] + removed_from(a, k + 1)
    }
}

/// Every line of `b` from `k` on, added.
pub open spec fn added_from(b: Seq<Seq<char>>, k: int) -> Seq<ChangeView>
    decreases b.len() - k,
{
    if k < 0 || k >= b.len() {
        seq![]
    } else {
        seq![ChangeView::Added { actual_line: k + 1, text: b[k] }] + added_from(b, k + 1)
    }
}

/// The positional comparison from line `k` on: line `n` against line `n`,
/// a differing pair as a removal then an addition, and the longer side's
/// surplus removed or added at the end.
pub open spec fn positional_from(a: Seq<Seq<char>>, b: Seq<Seq<char>>, k: int) -> Seq<ChangeView>
    decreases a.len() - k,
{
    if k < 0 || k >= a.len() || k >= b.len() {
        removed_from(a, k) + added_from(b, k)
    } else if a[k] == b[k] {
        seq![ChangeView::Same { expected_line: k + 1, actual_line: k + 1, text: a[k] }]
            + positional_from(a, b, k + 1)
    } else {
        seq![
            ChangeView::Removed { expected_line: k + 1, text: a[k] },
            ChangeView::Added { actual_line: k + 1, text: b[k] },
        ] + positional_from(a, b, k + 1)
    }
}

/// The diff of two line lists: the longest-common-subsequence script, or the
/// positional one when either side is longer than the limit.
pub open spec fn diff_lines(a: Seq<Seq<char>>, b: Seq<Seq<char>>) -> Seq<ChangeView> {
    if a.len() > LCS_LINE_LIMIT || b.len() > LCS_LINE_LIMIT {
        positional_from(a, b, 0)
    } else {
        script(a, b, 0, 0)
    }
}

/// The diff of two texts, line by line.
pub open spec fn diff_texts(expected: Seq<char>, actual: Seq<char>) -> Seq<ChangeView> {
    diff_lines(lines(expected), lines(actual))
}

impl<'a> Change<'a> {
    /// Whether this line is present on both sides.
    pub fn is_same(&self) -> (res: bool)
        ensures
            res == (self@ is Same),
    {
        match self {
            Change::Same { .. } => true,
            _ => false,
        }
    }
}

/// The line-level edit script turning `expected` into `actual`.
pub fn changes<'a>(expected: &'a str, actual: &'a str) -> (res: Vec<Change<'a>>)
    ensures
        changes_view(res@) == diff_texts(expected@, actual@),
{
    let left = lines_of(expected);
    let right = lines_of(actual);
    if left.len() > LCS_LINE_LIMIT || right.len() > LCS_LINE_LIMIT {
        return positional(&left, &right);
    }
    lcs(&left, &right)
}

/// Whether the two texts are identical.
pub fn is_identical(expected: &str, actual: &str) -> (res: bool)
    ensures
        res == (expected@ == actual@),
{
    str_eq(expected, actual)
}

proof fn lemma_lcs_bound(a: Seq<Seq<char>>, b: Seq<Seq<char>>, i: int, j: int)
    requires
        0 <= i <= a.len(),
        0 <= j <= b.len(),
    ensures
        lcs_len(a, b, i, j) <= a.len() - i,
    decreases (a.len() + b.len()) - (i + j),
{
    if i < a.len() && j < b.len() {
        lemma_lcs_bound(a, b, i + 1, j + 1);
        lemma_lcs_bound(a, b, i + 1, j);
        lemma_lcs_bound(a, b, i, j + 1);
    }
}

/// Longest common subsequence over lines, then walk the table from the front.
fn lcs<'a>(left: &Vec<&'a str>, right: &Vec<&'a str>) -> (res: Vec<Change<'a>>)
    requires
        left.len() <= LCS_LINE_LIMIT,
        right.len() <= LCS_LINE_LIMIT,
    ensures
        changes_view(res@) == script(views(left@), views(right@), 0, 0),
{
    let ghost a = views(left@);
    let ghost b = views(right@);
    let n = left.len();
    let m = right.len();
    // `rows[k][l]` is the longest common subsequence of `left[n - k..]` and
    // `right[m - l..]`: the table is built bottom-up, so row `n` comes first.
    let mut rows: Vec<Vec<u32>> = Vec::new();
    let mut bottom: Vec<u32> = Vec::new();
    let mut l: usize = 0;
    while l <= m
        invariant
            l <= m + 1,
            m == right.len(),
            m <= LCS_LINE_LIMIT,
            bottom.len() == l,
            forall|q: int| 0 <= q < l ==> bottom@[q] == 0,
        decreases m + 1 - l,
    {
        bottom.push(0);
        l = l + 1;
    }
    rows.push(bottom);
    proof {
        assert forall|q: int| 0 <= q <= m implies rows@[0]@[q] == lcs_len(a, b, n as int, m - q) by {
        }
    }
    let mut i = n;
    while i > 0
        invariant
            n == left.len(),
            m == right.len(),
            n <= LCS_LINE_LIMIT,
            m <= LCS_LINE_LIMIT,
            a == views(left@),
            b == views(right@),
            i <= n,
            rows.len() == n - i + 1,
            forall|k: int| 0 <= k < rows.len() ==> (#[trigger] rows@[k]).len() == m + 1,
            forall|k: int, q: int|
                0 <= k < rows.len() && 0 <= q <= m ==> (#[trigger] rows@[k]@[q]) == lcs_len(
                    a,
                    b,
                    n - k,
                    m - q,
                ),
        decreases i,
    {
        let r = i - 1;
        let last = rows.len() - 1;
        let mut row: Vec<u32> = Vec::new();
        row.push(0);
        while row.len() <= m
            invariant
                n == left.len(),
                m == right.len(),
                n <= LCS_LINE_LIMIT,
                m <= LCS_LINE_LIMIT,
                a == views(left@),
                b == views(right@),
                r < n,
                last == n - r - 1,
                rows.len() == last + 1,
                rows@[last as int].len() == m + 1,
                forall|q: int|
                    0 <= q <= m ==> (#[trigger] rows@[last as int]@[q]) == lcs_len(
                        a,
                        b,
                        r + 1,
                        m - q,
                    ),
                1 <= row.len() <= m + 1,
                forall|q: int| 0 <= q < row.len() ==> (#[trigger] row@[q]) == lcs_len(a, b, r as int, m - q),
            decreases m + 1 - row.len(),
        {
            let q = row.len();
            let j = m - q;
            proof {
                lemma_lcs_bound(a, b, r as int, j as int);
                lemma_lcs_bound(a, b, r + 1, j + 1);
            }
            let value = if str_eq(left[r], right[j]) {
                rows[last][q - 1] + 1
            } else {
                let down = rows[last][q];
                let across = row[q - 1];
                if down >= across {
                    down
                } else {
                    across
                }
            };
            row.push(value);
        }
        rows.push(row);
        i = r;
    }
    // Walk the table from the front.
    let mut out: Vec<Change<'a>> = Vec::new();
    let mut i: usize = 0;
    let mut j: usize = 0;
    while i < n && j < m
        invariant
            n == left.len(),
            m == right.len(),
            a == views(left@),
            b == views(right@),
            i <= n,
            j <= m,
            rows.len() == n + 1,
            forall|k: int| 0 <= k < rows.len() ==> (#[trigger] rows@[k]).len() == m + 1,
            forall|k: int, q: int|
                0 <= k < rows.len() && 0 <= q <= m ==> (#[trigger] rows@[k]@[q]) == lcs_len(
                    a,
                    b,
                    n - k,
                    m - q,
                ),
            changes_view(out@) + script(a, b, i as int, j as int) == script(a, b, 0, 0),
        decreases n + m - i - j,
    {
        let ghost before = out@;
        if str_eq(left[i], right[j]) {
            out.push(Change::Same { expected_line: i + 1, actual_line: j + 1, text: left[i] });
            i = i + 1;
            j = j + 1;
        } else if rows[n - i - 1][m - j] >= rows[n - i][m - j - 1] {
            out.push(Change::Removed { expected_line: i + 1, text: left[i] });
            i = i + 1;
        } else {
            out.push(Change::Added { actual_line: j + 1, text: right[j] });
            j = j + 1;
        }
        assert(changes_view(out@) =~= changes_view(before).push(out@.last()@));
    }
    while i < n
        invariant
            n == left.len(),
            m == right.len(),
            a == views(left@),
            b == views(right@),
            i <= n,
            j <= m,
            i < n ==> j == m,
            changes_view(out@) + script(a, b, i as int, j as int) == script(a, b, 0, 0),
        decreases n - i,
    {
        let ghost before = out@;
        out.push(Change::Removed { expected_line: i + 1, text: left[i] });
        i = i + 1;
        assert(changes_view(out@) =~= changes_view(before).push(out@.last()@));
    }
    while j < m
        invariant
            n == left.len(),
            m == right.len(),
            a == views(left@),
            b == views(right@),
            i == n,
            j <= m,
            changes_view(out@) + script(a, b, i as int, j as int) == script(a, b, 0, 0),
        decreases m - j,
    {
        let ghost before = out@;
        out.push(Change::Added { actual_line: j + 1, text: right[j] });
        j = j + 1;
        assert(changes_view(out@) =~= changes_view(before).push(out@.last()@));
    }
    assert(script(a, b, n as int, m as int) == Seq::<ChangeView>::empty());
    assert(changes_view(out@) + Seq::<ChangeView>::empty() =~= changes_view(out@));
    out
}

/// The fallback for very large inputs: compare line `n` with line `n`.
pub fn positional<'a>(left: &Vec<&'a str>, right: &Vec<&'a str>) -> (res: Vec<Change<'a>>)
    ensures
        changes_view(res@) == positional_from(views(left@), views(right@), 0),
{
    let ghost a = views(left@);
    let ghost b = views(right@);
    let mut out: Vec<Change<'a>> = Vec::new();
    let shared = if left.len() < right.len() {
        left.len()
    } else {
        right.len()
    };
    let mut k: usize = 0;
    while k < shared
        invariant
            a == views(left@),
            b == views(right@),
            shared <= left.len(),
            shared <= right.len(),
            shared == left.len() || shared == right.len(),
            k <= shared,
            changes_view(out@) + positional_from(a, b, k as int) == positional_from(a, b, 0),
        decreases shared - k,
    {
        let ghost before = out@;
        if str_eq(left[k], right[k]) {
            out.push(Change::Same { expected_line: k + 1, actual_line: k + 1, text: left[k] });
            assert(changes_view(out@) =~= changes_view(before).push(out@.last()@));
        } else {
            out.push(Change::Removed { expected_line: k + 1, text: left[k] });
            out.push(Change::Added { actual_line: k + 1, text: right[k] });
            assert(changes_view(out@) =~= changes_view(before) + seq![
                ChangeView::Removed { expected_line: k + 1, text: a[k as int] },
                ChangeView::Added { actual_line: k + 1, text: b[k as int] },
            ]);
        }
        k = k + 1;
    }
    assert(positional_from(a, b, k as int) == removed_from(a, k as int) + added_from(b, k as int));
    let ghost middle = out@;
    let mut p = k;
    while p < left.len()
        invariant
            a == views(left@),
            p <= left.len(),
            changes_view(out@) + removed_from(a, p as int) == changes_view(middle) + removed_from(a, k as int),
        decreases left.len() - p,
    {
        let ghost before = out@;
        out.push(Change::Removed { expected_line: p + 1, text: left[p] });
        assert(changes_view(out@) =~= changes_view(before).push(out@.last()@));
        p = p + 1;
    }
    let ghost after_removed = out@;
    let mut q = k;
    while q < right.len()
        invariant
            b == views(right@),
            q <= right.len(),
            changes_view(out@) + added_from(b, q as int) == changes_view(after_removed) + added_from(b, k as int),
        decreases right.len() - q,
    {
        let ghost before = out@;
        out.push(Change::Added { actual_line: q + 1, text: right[q] });
        assert(changes_view(out@) =~= changes_view(before).push(out@.last()@));
        q = q + 1;
    }
    assert(removed_from(a, p as int) == Seq::<ChangeView>::empty());
    assert(added_from(b, q as int) == Seq::<ChangeView>::empty());
    assert(changes_view(after_removed) =~= changes_view(middle) + removed_from(a, k as int));
    assert(changes_view(out@) =~= changes_view(after_removed) + added_from(b, k as int));
    out
}


// ---------------------------------------------------------------------------
// Rendering
// ---------------------------------------------------------------------------

/// The first line of a rendering.
pub open spec fn expected_header() -> Seq<char> {
    "--- expected (the .stderr file on disk)\n"@
}

/// The second line of a rendering.
pub open spec fn actual_header() -> Seq<char> {
    "+++ actual (what compile() just returned)\n"@
}

/// What a rendering of two empty sides says instead of rows.
pub open spec fn empty_note() -> Seq<char> {
    "(both sides are empty)\n"@
}

/// The numeral of a line number, or nothing for the side a line is absent from.
pub open spec fn numeral(line: Option<int>) -> Seq<char> {
    match line {
        Some(n) => decimal(n as nat),
        None => seq![],
    }
}

/// One row: both line numbers right-aligned in the gutter, the marker, the text.
pub open spec fn row_of(
    width: nat,
    expected_line: Option<int>,
    actual_line: Option<int>,
    marker: char,
    text: Seq<char>,
) -> Seq<char> {
    pad_left(numeral(expected_line), width) + seq![' '] + pad_left(numeral(actual_line), width)
        + seq![' ', marker, ' '] + text + seq!['\n']
}

/// The row a change is rendered as.
pub open spec fn change_row(c: ChangeView, width: nat) -> Seq<char> {
    match c {
        ChangeView::Same { expected_line, actual_line, text } => row_of(
            width,
            Some(expected_line),
            Some(actual_line),
            ' ',
            text,
        ),
        ChangeView::Removed { expected_line, text } => row_of(
            width,
            Some(expected_line),
            None,
            '-',
            text,
        ),
        ChangeView::Added { actual_line, text } => row_of(width, None, Some(actual_line), '+', text),
    }
}

/// The line a change stands on in the expectation, if it is there.
pub open spec fn expected_number(c: ChangeView) -> Option<int> {
    match c {
        ChangeView::Same { expected_line, .. } => Some(expected_line),
        ChangeView::Removed { expected_line, .. } => Some(expected_line),
        ChangeView::Added { .. } => None,
    }
}

/// The line a change stands on in the actual output, if it is there.
pub open spec fn actual_number(c: ChangeView) -> Option<int> {
    match c {
        ChangeView::Same { actual_line, .. } => Some(actual_line),
        ChangeView::Added { actual_line, .. } => Some(actual_line),
        ChangeView::Removed { .. } => None,
    }
}

/// The marker a change is shown with: `-` for a line only the expectation
/// has, `+` for one only the output has, a blank for a line both have.
pub open spec fn marker_of(c: ChangeView) -> char {
    match c {
        ChangeView::Same { .. } => ' ',
        ChangeView::Removed { .. } => '-',
        ChangeView::Added { .. } => '+',
    }
}

/// The text of the line a change is about.
pub open spec fn text_of(c: ChangeView) -> Seq<char> {
    match c {
        ChangeView::Same { text, .. } => text,
        ChangeView::Removed { text, .. } => text,
        ChangeView::Added { text, .. } => text,
    }
}

/// **Each row shows the line on both sides.** Every rendered row is the
/// change's line number in the expectation, a space, and its line number in
/// the actual output, each right-aligned to the gutter's width and blank on
/// the side the line is not on; then the change's marker between spaces,
/// the line's text and a newline. So a context line shows two numbers that
/// differ whenever lines were added or removed above it.
pub proof fn law_rows_number_both_sides(c: ChangeView, width: nat)
    ensures
        change_row(c, width) == pad_left(numeral(expected_number(c)), width) + seq![' '] + pad_left(
            numeral(actual_number(c)),
            width,
        ) + seq![' ', marker_of(c), ' '] + text_of(c) + seq!['\n'],
        change_row(c, width).take(
            (pad_left(numeral(expected_number(c)), width).len() + 1 + pad_left(numeral(actual_number(c)), width).len()) as int,
        ) == pad_left(numeral(expected_number(c)), width) + seq![' '] + pad_left(numeral(actual_number(c)), width),
{
    let e = pad_left(numeral(expected_number(c)), width);
    let a = pad_left(numeral(actual_number(c)), width);
    let row = change_row(c, width);
    assert(row.take((e.len() + 1 + a.len()) as int) =~= e + seq![' '] + a);
}

/// The rows of a list of changes, in order.
pub open spec fn rows_text(cs: Seq<ChangeView>, width: nat) -> Seq<char>
    decreases cs.len(),
{
    if cs.len() == 0 {
        seq![]
    } else {
        rows_text(cs.drop_last(), width) + change_row(cs.last(), width)
    }
}

/// How many digits the wider of a change's two line numbers has; an absent
/// side counts as one digit.
pub open spec fn change_width(c: ChangeView) -> nat {
    match c {
        ChangeView::Same { expected_line, actual_line, .. } => {
            let l = decimal(expected_line as nat).len();
            let r = decimal(actual_line as nat).len();
            if l >= r {
                l
            } else {
                r
            }
        },
        ChangeView::Removed { expected_line, .. } => decimal(expected_line as nat).len(),
        ChangeView::Added { actual_line, .. } => decimal(actual_line as nat).len(),
    }
}

/// The gutter's width: the widest line number in the script, and at least one.
pub open spec fn gutter(cs: Seq<ChangeView>) -> nat
    decreases cs.len(),
{
    if cs.len() == 0 {
        1
    } else {
        let rest = gutter(cs.drop_last());
        let here = change_width(cs.last());
        if rest >= here {
            rest
        } else {
            here
        }
    }
}

/// The whole rendering of a diff.
pub open spec fn rendering(expected: Seq<char>, actual: Seq<char>) -> Seq<char> {
    let cs = diff_texts(expected, actual);
    expected_header() + actual_header() + rows_text(cs, gutter(cs)) + if cs.len() == 0 {
        empty_note()
    } else {
        seq![]
    }
}

/// Render the edit script as text, with a line-number gutter.
///
/// Columns: the expectation's line number, the actual output's line number,
/// a marker (`-` removed, `+` added, blank for context) and the text.
pub fn render(expected: &str, actual: &str) -> (out: String)
    ensures
        out@ == rendering(expected@, actual@),
{
    let changes = changes(expected, actual);
    let ghost cs = changes_view(changes@);
    let width = gutter_width(&changes);
    let mut out = String::new();
    push_str(&mut out, "--- expected (the .stderr file on disk)\n");
    push_str(&mut out, "+++ actual (what compile() just returned)\n");
    let ghost head = out@;
    let mut k: usize = 0;
    while k < changes.len()
        invariant
            k <= changes.len(),
            cs == changes_view(changes@),
            width == gutter(cs),
            out@ == head + rows_text(cs.take(k as int), width as nat),
        decreases changes.len() - k,
    {
        let ghost before = out@;
        match changes[k] {
            Change::Same { expected_line, actual_line, text } => {
                push_row(&mut out, width, Some(expected_line), Some(actual_line), ' ', text);
            },
            Change::Removed { expected_line, text } => {
                push_row(&mut out, width, Some(expected_line), None, '-', text);
            },
            Change::Added { actual_line, text } => {
                push_row(&mut out, width, None, Some(actual_line), '+', text);
            },
        }
        assert(cs.take(k + 1).drop_last() =~= cs.take(k as int));
        assert(out@ =~= head + rows_text(cs.take(k + 1), width as nat));
        k = k + 1;
    }
    assert(cs.take(k as int) =~= cs);
    if changes.len() == 0 {
        push_str(&mut out, "(both sides are empty)\n");
    }
    proof {
        reveal_strlit("--- expected (the .stderr file on disk)\n");
        reveal_strlit("+++ actual (what compile() just returned)\n");
        reveal_strlit("(both sides are empty)\n");
    }
    out
}

/// Appends one row.
fn push_row(
    out: &mut String,
    width: usize,
    expected_line: Option<usize>,
    actual_line: Option<usize>,
    marker: char,
    text: &str,
)
    ensures
        final(out)@ == old(out)@ + row_of(
            width as nat,
            match expected_line {
                Some(n) => Some(n as int),
                None => None,
            },
            match actual_line {
                Some(n) => Some(n as int),
                None => None,
            },
            marker,
            text@,
        ),
{
    push_padded(out, width, expected_line);
    push_char(out, ' ');
    push_padded(out, width, actual_line);
    push_char(out, ' ');
    push_char(out, marker);
    push_char(out, ' ');
    push_str(out, text);
    push_char(out, '\n');
    assert(final(out)@ =~= old(out)@ + row_of(
        width as nat,
        match expected_line {
            Some(n) => Some(n as int),
            None => None,
        },
        match actual_line {
            Some(n) => Some(n as int),
            None => None,
        },
        marker,
        text@,
    ));
}

/// Appends a line number, or nothing, right-aligned in `width` columns.
fn push_padded(out: &mut String, width: usize, line: Option<usize>)
    ensures
        final(out)@ == old(out)@ + pad_left(
            numeral(
                match line {
                    Some(n) => Some(n as int),
                    None => None,
                },
            ),
            width as nat,
        ),
{
    let ghost num = numeral(
        match line {
            Some(n) => Some(n as int),
            None => None,
        },
    );
    let len = match line {
        Some(n) => digits(n),
        None => 0,
    };
    if len < width {
        push_spaces(out, width - len);
    }
    match line {
        Some(n) => push_decimal(out, n),
        None => {},
    }
    proof {
        if len < width {
            assert(final(out)@ =~= old(out)@ + (spaces((width - len) as nat) + num));
        } else {
            assert(final(out)@ =~= old(out)@ + num);
        }
    }
}

/// How many decimal digits `n` has.
fn digits(n: usize) -> (r: usize)
    ensures
        r == decimal(n as nat).len(),
        r <= n + 1,
    decreases n,
{
    if n < 10 {
        1
    } else {
        1 + digits(n / 10)
    }
}

/// The widest line number in the script, and at least one.
fn gutter_width(changes: &Vec<Change>) -> (w: usize)
    ensures
        w == gutter(changes_view(changes@)),
{
    let ghost cs = changes_view(changes@);
    let mut widest: usize = 1;
    let mut k: usize = 0;
    while k < changes.len()
        invariant
            k <= changes.len(),
            cs == changes_view(changes@),
            widest == gutter(cs.take(k as int)),
        decreases changes.len() - k,
    {
        let here = match changes[k] {
            Change::Same { expected_line, actual_line, .. } => {
                let l = digits(expected_line);
                let r = digits(actual_line);
                if l >= r {
                    l
                } else {
                    r
                }
            },
            Change::Removed { expected_line, .. } => digits(expected_line),
            Change::Added { actual_line, .. } => digits(actual_line),
        };
        assert(cs.take(k + 1).drop_last() =~= cs.take(k as int));
        if here > widest {
            widest = here;
        }
        k = k + 1;
    }
    assert(cs.take(k as int) =~= cs);
    widest
}

} // verus!
