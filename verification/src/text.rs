//! Characters, lines and decimal numerals: the text primitives the rest of
//! the library is stated over.

use vstd::prelude::*;
use vstd::std_specs::iter::IteratorSpec;
use vstd::string::StrSliceExecFns;
use vstd::string::StringExecFns;

verus! {

broadcast use vstd::string::group_string_axioms;

// ---------------------------------------------------------------------------
// Specifications
// ---------------------------------------------------------------------------

/// The index of the first `'\n'` at or after `i`, or `s.len()` when there is none.
pub open spec fn next_newline(s: Seq<char>, i: int) -> int
    decreases s.len() - i,
{
    if i >= s.len() {
        s.len() as int
    } else if s[i] == '\n' {
        i
    } else {
        next_newline(s, i + 1)
    }
}

/// A line with its `'\r'` removed, as the terminator `"\r\n"` requires.
pub open spec fn strip_cr(line: Seq<char>) -> Seq<char> {
    if line.len() > 0 && line.last() == '\r' {
        line.drop_last()
    } else {
        line
    }
}

/// The lines of `s` starting at index `i`, split as `str::lines` splits them:
/// at `'\n'`, dropping one `'\r'` before a `'\n'`, with the final line ending
/// optional and an unterminated last line kept as it is.
pub open spec fn lines_from(s: Seq<char>, i: int) -> Seq<Seq<char>>
    decreases s.len() - i,
{
    if i < 0 || i >= s.len() {
        seq![]
    } else {
        let n = next_newline(s, i);
        proof {
            lemma_next_newline(s, i);
        }
        if n >= s.len() {
            seq![s.subrange(i, s.len() as int)]
        } else {
            seq![strip_cr(s.subrange(i, n))] + lines_from(s, n + 1)
        }
    }
}

/// The lines of a text.
pub open spec fn lines(s: Seq<char>) -> Seq<Seq<char>> {
    lines_from(s, 0)
}

/// The views of a sequence of string slices.
pub open spec fn views(v: Seq<&str>) -> Seq<Seq<char>> {
    v.map_values(|x: &str| x@)
}

/// The character of a decimal digit.
pub open spec fn digit_char(d: nat) -> char {
    if d == 0 {
        '0'
    } else if d == 1 {
        '1'
    } else if d == 2 {
        '2'
    } else if d == 3 {
        '3'
    } else if d == 4 {
        '4'
    } else if d == 5 {
        '5'
    } else if d == 6 {
        '6'
    } else if d == 7 {
        '7'
    } else if d == 8 {
        '8'
    } else {
        '9'
    }
}

/// The decimal numeral of `n`, without leading zeros.
pub open spec fn decimal(n: nat) -> Seq<char>
    decreases n,
{
    if n < 10 {
        seq![digit_char(n)]
    } else {
        decimal(n / 10).push(digit_char(n % 10))
    }
}

/// The decimal numeral of `v`, with a minus sign when it is negative.
pub open spec fn signed_decimal(v: int) -> Seq<char> {
    if v < 0 {
        seq!['-'] + decimal((-v) as nat)
    } else {
        decimal(v as nat)
    }
}

/// `n` spaces.
pub open spec fn spaces(n: nat) -> Seq<char>
    decreases n,
{
    if n == 0 {
        seq![]
    } else {
        spaces((n - 1) as nat).push(' ')
    }
}

/// `s` right-aligned in a field of `width` characters.
pub open spec fn pad_left(s: Seq<char>, width: nat) -> Seq<char> {
    if s.len() >= width {
        s
    } else {
        spaces((width - s.len()) as nat) + s
    }
}

// ---------------------------------------------------------------------------
// Lemmas
// ---------------------------------------------------------------------------

/// Where the next newline is, and that none comes before it.
pub proof fn lemma_next_newline(s: Seq<char>, i: int)
    requires
        0 <= i,
    ensures
        i <= s.len() ==> i <= next_newline(s, i) <= s.len(),
        i > s.len() ==> next_newline(s, i) == s.len(),
        next_newline(s, i) < s.len() ==> s[next_newline(s, i)] == '\n',
        forall|k: int| i <= k < next_newline(s, i) ==> s[k] != '\n',
    decreases s.len() - i,
{
    if i < s.len() && s[i] != '\n' {
        lemma_next_newline(s, i + 1);
    }
}

/// The next newline is the first index that holds one.
pub proof fn lemma_next_newline_at(s: Seq<char>, i: int, j: int)
    requires
        0 <= i <= j <= s.len(),
        forall|k: int| i <= k < j ==> s[k] != '\n',
        j == s.len() || s[j] == '\n',
    ensures
        next_newline(s, i) == j,
    decreases j - i,
{
    if i < j {
        lemma_next_newline_at(s, i + 1, j);
    }
}

/// A numeral has at least one digit.
pub proof fn lemma_decimal_len(n: nat)
    ensures
        decimal(n).len() >= 1,
    decreases n,
{
    if n >= 10 {
        lemma_decimal_len(n / 10);
    }
}

/// The numeral of a number of at most `d` digits is at most `d` long.
pub proof fn lemma_decimal_len_bound(n: nat, bound: nat, d: nat)
    requires
        n < bound,
        bound == pow10(d),
        d >= 1,
    ensures
        decimal(n).len() <= d,
    decreases d,
{
    if n >= 10 {
        assert(n / 10 < pow10((d - 1) as nat)) by {
            lemma_pow10_step(d);
        }
        if d == 1 {
            assert(pow10(1) == 10) by {
                reveal_with_fuel(pow10, 2);
            }
        } else {
            lemma_decimal_len_bound(n / 10, pow10((d - 1) as nat), (d - 1) as nat);
        }
    }
}

/// Ten to the power `d`.
pub open spec fn pow10(d: nat) -> nat
    decreases d,
{
    if d == 0 {
        1
    } else {
        10 * pow10((d - 1) as nat)
    }
}

proof fn lemma_pow10_step(d: nat)
    requires
        d >= 1,
    ensures
        pow10(d) == 10 * pow10((d - 1) as nat),
{
}

/// A padded string is as wide as the field, or as wide as itself.
pub proof fn lemma_spaces_len(n: nat)
    ensures
        spaces(n).len() == n,
        forall|k: int| 0 <= k < n ==> spaces(n)[k] == ' ',
    decreases n,
{
    if n > 0 {
        lemma_spaces_len((n - 1) as nat);
    }
}

// ---------------------------------------------------------------------------
// Trusted std items
// ---------------------------------------------------------------------------

/// `String::push`: appends one character.
#[verifier::external_body]
pub(crate) fn push_char(s: &mut String, c: char)
    ensures
        final(s)@ == old(s)@.push(c),
{
    s.push(c);
}

// ---------------------------------------------------------------------------
// Comparison
// ---------------------------------------------------------------------------

/// Whether two slices hold the same characters, in order.
pub(crate) fn str_eq(a: &str, b: &str) -> (res: bool)
    ensures
        res == (a@ == b@),
{
    let x = chars_of(a);
    let y = chars_of(b);
    if x.len() != y.len() {
        return false;
    }
    let mut i: usize = 0;
    while i < x.len()
        invariant
            x@ == a@,
            y@ == b@,
            x@.len() == y@.len(),
            i <= x@.len(),
            forall|k: int| 0 <= k < i ==> x@[k] == y@[k],
        decreases x@.len() - i,
    {
        if x[i] != y[i] {
            return false;
        }
        i = i + 1;
    }
    assert(x@ =~= y@);
    true
}

// ---------------------------------------------------------------------------
// Executable helpers
// ---------------------------------------------------------------------------

/// The characters of a string slice, in order.
pub fn chars_of(s: &str) -> (out: Vec<char>)
    ensures
        out@ == s@,
{
    let mut out: Vec<char> = Vec::new();
    for c in it: s.chars()
        invariant
            out@ == it.seq().take(it.index() as int),
    {
        out.push(c);
    }
    out
}

/// Appends a string slice.
pub fn push_str(s: &mut String, t: &str)
    ensures
        final(s)@ == old(s)@ + t@,
{
    s.append(t);
}

/// Appends the characters `chars[from..to]`.
pub fn push_chars(s: &mut String, chars: &Vec<char>, from: usize, to: usize)
    requires
        from <= to <= chars.len(),
    ensures
        final(s)@ == old(s)@ + chars@.subrange(from as int, to as int),
{
    let mut k = from;
    while k < to
        invariant
            from <= k <= to <= chars.len(),
            s@ == old(s)@ + chars@.subrange(from as int, k as int),
        decreases to - k,
    {
        push_char(s, chars[k]);
        assert(chars@.subrange(from as int, k + 1) =~= chars@.subrange(from as int, k as int).push(
            chars@[k as int],
        ));
        k = k + 1;
    }
}

/// The character of a digit.
pub fn digit(d: usize) -> (c: char)
    requires
        d < 10,
    ensures
        c == digit_char(d as nat),
{
    if d == 0 {
        '0'
    } else if d == 1 {
        '1'
    } else if d == 2 {
        '2'
    } else if d == 3 {
        '3'
    } else if d == 4 {
        '4'
    } else if d == 5 {
        '5'
    } else if d == 6 {
        '6'
    } else if d == 7 {
        '7'
    } else if d == 8 {
        '8'
    } else {
        '9'
    }
}

/// Appends the decimal numeral of `n`.
pub fn push_decimal(s: &mut String, n: usize)
    ensures
        final(s)@ == old(s)@ + decimal(n as nat),
    decreases n,
{
    if n < 10 {
        push_char(s, digit(n));
        assert(decimal(n as nat) == seq![digit_char(n as nat)]);
    } else {
        push_decimal(s, n / 10);
        push_char(s, digit(n % 10));
        assert(decimal(n as nat) == decimal((n / 10) as nat).push(digit_char((n % 10) as nat)));
    }
}

/// Appends the decimal numeral of a 128-bit `n`.
pub fn push_decimal_u128(s: &mut String, n: u128)
    ensures
        final(s)@ == old(s)@ + decimal(n as nat),
    decreases n,
{
    if n < 10 {
        push_char(s, digit(n as usize));
        assert(decimal(n as nat) == seq![digit_char(n as nat)]);
    } else {
        push_decimal_u128(s, n / 10);
        push_char(s, digit((n % 10) as usize));
        assert(decimal(n as nat) == decimal((n / 10) as nat).push(digit_char((n % 10) as nat)));
    }
}

/// Appends the decimal numeral of a signed `v`, with a minus sign when it
/// is negative, as `i128`'s `Display` writes it.
pub fn push_signed_decimal(s: &mut String, v: i128)
    ensures
        final(s)@ == old(s)@ + signed_decimal(v as int),
{
    if v < 0 {
        push_char(s, '-');
        let magnitude: u128 = if v == i128::MIN {
            170141183460469231731687303715884105728u128
        } else {
            (-v) as u128
        };
        push_decimal_u128(s, magnitude);
        assert(old(s)@ + signed_decimal(v as int) =~= old(s)@.push('-') + decimal(magnitude as nat));
    } else {
        push_decimal_u128(s, v as u128);
    }
}

/// The decimal numeral of `n`.
pub fn decimal_string(n: usize) -> (out: String)
    ensures
        out@ == decimal(n as nat),
{
    let mut out = String::new();
    push_decimal(&mut out, n);
    out
}

/// Appends `n` spaces.
pub fn push_spaces(s: &mut String, n: usize)
    ensures
        final(s)@ == old(s)@ + spaces(n as nat),
{
    let mut k: usize = 0;
    while k < n
        invariant
            k <= n,
            s@ == old(s)@ + spaces(k as nat),
        decreases n - k,
    {
        push_char(s, ' ');
        k = k + 1;
    }
}

/// The lines of a text, as `str::lines` gives them.
pub fn lines_of<'a>(s: &'a str) -> (out: Vec<&'a str>)
    ensures
        views(out@) == lines(s@),
{
    let cs = chars_of(s);
    let len = cs.len();
    let mut out: Vec<&'a str> = Vec::new();
    let mut i: usize = 0;
    while i < len
        invariant
            cs@ == s@,
            len == cs.len(),
            i <= len,
            lines(s@) == views(out@) + lines_from(s@, i as int),
        decreases len - i,
    {
        let mut j = i;
        while j < len && cs[j] != '\n'
            invariant
                cs@ == s@,
                len == cs.len(),
                i <= j <= len,
                forall|k: int| i <= k < j ==> s@[k] != '\n',
            decreases len - j,
        {
            j = j + 1;
        }
        proof {
            lemma_next_newline_at(s@, i as int, j as int);
        }
        let ghost old_out = out@;
        if j == len {
            let line = s.substring_char(i, j);
            out.push(line);
            assert(views(out@) =~= views(old_out).push(line@));
            assert(lines_from(s@, i as int) == seq![s@.subrange(i as int, len as int)]);
            assert(lines_from(s@, len as int) == Seq::<Seq<char>>::empty());
            i = len;
            assert(lines(s@) =~= views(out@) + lines_from(s@, i as int));
        } else {
            let end = if j > i && cs[j - 1] == '\r' {
                j - 1
            } else {
                j
            };
            let line = s.substring_char(i, end);
            assert(line@ == strip_cr(s@.subrange(i as int, j as int))) by {
                if j > i && cs@[j - 1] == '\r' {
                    assert(s@.subrange(i as int, j - 1) =~= s@.subrange(i as int, j as int).drop_last());
                }
            }
            out.push(line);
            assert(views(out@) =~= views(old_out).push(line@));
            assert(lines_from(s@, i as int) == seq![strip_cr(s@.subrange(i as int, j as int))]
                + lines_from(s@, j + 1));
            i = j + 1;
            assert(lines(s@) =~= views(out@) + lines_from(s@, i as int));
        }
    }
    assert(lines_from(s@, i as int) == Seq::<Seq<char>>::empty());
    assert(views(out@) + Seq::<Seq<char>>::empty() =~= views(out@));
    out
}

} // verus!
