//! The normalisation applied to a program, its output and its expectation
//! before anything is compared or written: line endings become `\n`, and
//! trailing blank lines collapse to exactly one final `\n`.

use vstd::prelude::*;

use crate::text::{chars_of, push_char, push_chars};

verus! {

/// `"\r\n"` and a lone `'\r'` both become `'\n'`; every other character stays.
pub open spec fn unify_line_endings(s: Seq<char>) -> Seq<char>
    decreases s.len(),
{
    if s.len() == 0 {
        seq![]
    } else if s[0] == '\r' {
        if s.len() > 1 && s[1] == '\n' {
            seq!['\n'] + unify_line_endings(s.skip(2))
        } else {
            seq!['\n'] + unify_line_endings(s.skip(1))
        }
    } else {
        seq![s[0]] + unify_line_endings(s.skip(1))
    }
}

/// `s` without its trailing `'\n'`s.
pub open spec fn trim_newlines(s: Seq<char>) -> Seq<char>
    decreases s.len(),
{
    if s.len() > 0 && s.last() == '\n' {
        trim_newlines(s.drop_last())
    } else {
        s
    }
}

/// The normal form of a text: unified line endings, and exactly one final
/// newline when anything is left.
pub open spec fn normalized(s: Seq<char>) -> Seq<char> {
    let body = trim_newlines(unify_line_endings(s));
    if body.len() == 0 {
        seq![]
    } else {
        body.push('\n')
    }
}

/// Line endings to `\n`, and exactly one final newline when non-empty.
pub fn normalize(text: &str) -> (out: String)
    ensures
        out@ == normalized(text@),
        !out@.contains('\r'),
        out@.len() == 0 || (out@.last() == '\n' && (out@.len() == 1 || out@[out@.len() - 2]
            != '\n')),
{
    let cs = chars_of(text);
    let unified = unify_chars(&cs);
    let end = trimmed_end(&unified);
    let mut out = String::new();
    push_chars(&mut out, &unified, 0, end);
    assert(unified@.subrange(0, end as int) =~= unified@.take(end as int));
    if end > 0 {
        push_char(&mut out, '\n');
    }
    proof {
        let body = unified@.take(end as int);
        lemma_trim_is_prefix(unified@);
        if end > 0 {
            assert(body.last() == unified@[end - 1]);
        }
        assert forall|k: int| 0 <= k < out@.len() implies out@[k] != '\r' by {
            if k < body.len() {
                assert(body[k] == unified@[k]);
            }
        }
        if end > 0 {
            assert(out@[out@.len() - 1] == '\n');
            if out@.len() > 1 {
                assert(out@[out@.len() - 2] == unified@[end - 1]);
            }
        }
    }
    out
}

/// The characters with their line endings unified.
fn unify_chars(cs: &Vec<char>) -> (unified: Vec<char>)
    ensures
        unified@ == unify_line_endings(cs@),
        !unified@.contains('\r'),
{
    let n = cs.len();
    let mut unified: Vec<char> = Vec::new();
    let mut i: usize = 0;
    assert(cs@.skip(0) =~= cs@);
    assert(unified@ + unify_line_endings(cs@) =~= unify_line_endings(cs@));
    while i < n
        invariant
            n == cs.len(),
            i <= n,
            unified@ + unify_line_endings(cs@.skip(i as int)) == unify_line_endings(cs@),
            !unified@.contains('\r'),
        decreases n - i,
    {
        let ghost rest = cs@.skip(i as int);
        let ghost before = unified@;
        if cs[i] == '\r' {
            unified.push('\n');
            if i + 1 < n && cs[i + 1] == '\n' {
                assert(rest.skip(2) =~= cs@.skip(i + 2));
                i = i + 2;
            } else {
                assert(rest.skip(1) =~= cs@.skip(i + 1));
                i = i + 1;
            }
        } else {
            unified.push(cs[i]);
            assert(rest.skip(1) =~= cs@.skip(i + 1));
            i = i + 1;
        }
        assert(unified@ =~= before + seq![unified@.last()]);
        assert(!unified@.contains('\r')) by {
            assert forall|k: int| 0 <= k < unified@.len() implies unified@[k] != '\r' by {
                if k < before.len() {
                    assert(unified@[k] == before[k]);
                }
            }
        }
    }
    assert(cs@.skip(i as int) =~= Seq::<char>::empty());
    assert(unified@ + Seq::<char>::empty() =~= unified@);
    unified
}

/// Where the characters end once trailing newlines are dropped.
fn trimmed_end(v: &Vec<char>) -> (end: usize)
    ensures
        end <= v.len(),
        v@.take(end as int) == trim_newlines(v@),
{
    let mut end = v.len();
    assert(v@.take(end as int) =~= v@);
    while end > 0 && v[end - 1] == '\n'
        invariant
            end <= v.len(),
            trim_newlines(v@.take(end as int)) == trim_newlines(v@),
        decreases end,
    {
        assert(v@.take(end as int).drop_last() =~= v@.take(end - 1));
        end = end - 1;
    }
    assert(trim_newlines(v@.take(end as int)) == v@.take(end as int));
    end
}

proof fn lemma_trim_is_prefix(s: Seq<char>)
    ensures
        trim_newlines(s).len() <= s.len(),
        trim_newlines(s) == s.take(trim_newlines(s).len() as int),
        trim_newlines(s).len() == 0 || trim_newlines(s).last() != '\n',
    decreases s.len(),
{
    if s.len() > 0 && s.last() == '\n' {
        lemma_trim_is_prefix(s.drop_last());
        assert(s.drop_last().take(trim_newlines(s).len() as int) =~= s.take(
            trim_newlines(s).len() as int,
        ));
    } else {
        assert(s.take(s.len() as int) =~= s);
    }
}

proof fn lemma_unify_without_cr(s: Seq<char>)
    requires
        !s.contains('\r'),
    ensures
        unify_line_endings(s) == s,
    decreases s.len(),
{
    if s.len() > 0 {
        assert(!s.skip(1).contains('\r')) by {
            assert forall|k: int| 0 <= k < s.skip(1).len() implies s.skip(1)[k] != '\r' by {
                assert(s.skip(1)[k] == s[k + 1]);
            }
        }
        lemma_unify_without_cr(s.skip(1));
        assert(s[0] != '\r');
        assert(seq![s[0]] + s.skip(1) =~= s);
    }
}

proof fn lemma_unify_no_cr(s: Seq<char>)
    ensures
        !unify_line_endings(s).contains('\r'),
    decreases s.len(),
{
    if s.len() > 0 {
        if s[0] == '\r' && s.len() > 1 && s[1] == '\n' {
            lemma_unify_no_cr(s.skip(2));
            let r = unify_line_endings(s.skip(2));
            assert forall|k: int| 0 <= k < (seq!['\n'] + r).len() implies (seq!['\n'] + r)[k] != '\r' by {
                if k > 0 {
                    assert((seq!['\n'] + r)[k] == r[k - 1]);
                }
            }
        } else {
            lemma_unify_no_cr(s.skip(1));
            let r = unify_line_endings(s.skip(1));
            let c = if s[0] == '\r' {
                '\n'
            } else {
                s[0]
            };
            assert forall|k: int| 0 <= k < (seq![c] + r).len() implies (seq![c] + r)[k] != '\r' by {
                if k > 0 {
                    assert((seq![c] + r)[k] == r[k - 1]);
                }
            }
        }
    }
}

/// **Normalising twice is normalising once.** Both sides of a comparison are
/// normalised, and so is everything written to disk, so an expectation file
/// that was written by a bless compares equal to the output that wrote it.
pub proof fn law_normalize_idempotent(s: Seq<char>)
    ensures
        normalized(normalized(s)) == normalized(s),
{
    let u = unify_line_endings(s);
    let body = trim_newlines(u);
    lemma_unify_no_cr(s);
    lemma_trim_is_prefix(u);
    let n = normalized(s);
    if body.len() == 0 {
        assert(n =~= Seq::<char>::empty());
        assert(unify_line_endings(n) =~= Seq::<char>::empty());
        assert(trim_newlines(Seq::<char>::empty()) =~= Seq::<char>::empty());
    } else {
        assert(!body.contains('\r')) by {
            assert forall|k: int| 0 <= k < body.len() implies body[k] != '\r' by {
                assert(body[k] == u[k]);
            }
        }
        assert(!n.contains('\r')) by {
            assert forall|k: int| 0 <= k < n.len() implies n[k] != '\r' by {
                if k < body.len() {
                    assert(n[k] == body[k]);
                }
            }
        }
        lemma_unify_without_cr(n);
        assert(n.drop_last() =~= body);
        assert(trim_newlines(n) == trim_newlines(body));
        assert(trim_newlines(body) == body);
    }
}

} // verus!
