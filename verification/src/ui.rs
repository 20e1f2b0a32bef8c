//! UI tests: a program that must be rejected, next to the diagnostics it is
//! expected to produce. This module holds what a run decides; reading and
//! writing the files is the caller's.

use vstd::prelude::*;

use crate::diff::{render, rendering};
use crate::normalize::{normalize, normalized};
use crate::text::{
    chars_of, decimal, lines, lines_of, push_char, push_chars, push_decimal, push_str, str_eq,
    views,
};

verus! {

/// The extension of a UI test's source program.
pub const SOURCE_EXTENSION: &'static str = "science";

/// The extension of the file holding its expected diagnostics.
pub const EXPECTATION_EXTENSION: &'static str = "stderr";

/// Set this to `1` to rewrite expectation files instead of failing.
pub const BLESS_ENV_VAR: &'static str = "SCIENCE_BLESS";

// ---------------------------------------------------------------------------
// Paths
// ---------------------------------------------------------------------------

/// The index of the last `c` in `s`, or `-1`.
pub open spec fn last_index_of(s: Seq<char>, c: char) -> int
    decreases s.len(),
{
    if s.len() == 0 {
        -1
    } else if s.last() == c {
        s.len() - 1
    } else {
        last_index_of(s.drop_last(), c)
    }
}

/// `s` without what ends its last named component: trailing separators, and
/// trailing `.` components, which name the same directory.
pub open spec fn trim_tail(s: Seq<char>) -> Seq<char>
    decreases s.len(),
{
    if s.len() > 0 && s.last() == '/' {
        trim_tail(s.drop_last())
    } else if s.len() >= 2 && s.last() == '.' && s[s.len() - 2] == '/' {
        trim_tail(s.drop_last())
    } else {
        s
    }
}

/// The path with its extension replaced by `ext`, or `ext` added when it has
/// none: the part of the file name after its last `.` goes, unless that `.`
/// starts the name. The file name is the last component once trailing
/// separators and `.` components are passed over, and what follows its stem
/// goes with the old extension. A path with no file name (empty, or ending in
/// `.` or `..`) is left as it is.
pub open spec fn with_extension(path: Seq<char>, ext: Seq<char>) -> Seq<char> {
    let p = trim_tail(path);
    let slash = last_index_of(p, '/');
    let name = p.skip(slash + 1);
    if name.len() == 0 || name == seq!['.'] || name == seq!['.', '.'] {
        path
    } else {
        let dot = last_index_of(name, '.');
        let stem_end = if dot > 0 {
            slash + 1 + dot
        } else {
            p.len() as int
        };
        p.take(stem_end) + seq!['.'] + ext
    }
}

proof fn lemma_last_index_of(s: Seq<char>, c: char)
    ensures
        -1 <= last_index_of(s, c) < s.len(),
        last_index_of(s, c) >= 0 ==> s[last_index_of(s, c)] == c,
        forall|k: int| last_index_of(s, c) < k < s.len() ==> s[k] != c,
    decreases s.len(),
{
    if s.len() > 0 && s.last() != c {
        lemma_last_index_of(s.drop_last(), c);
        assert forall|k: int| last_index_of(s, c) < k < s.len() implies s[k] != c by {
            if k < s.len() - 1 {
                assert(s[k] == s.drop_last()[k]);
            }
        }
    }
}

proof fn lemma_trim_tail(s: Seq<char>)
    ensures
        trim_tail(s).len() <= s.len(),
        trim_tail(s) == s.take(trim_tail(s).len() as int),
    decreases s.len(),
{
    if (s.len() > 0 && s.last() == '/') || (s.len() >= 2 && s.last() == '.' && s[s.len() - 2] == '/') {
        lemma_trim_tail(s.drop_last());
        assert(s.drop_last().take(trim_tail(s).len() as int) =~= s.take(trim_tail(s).len() as int));
    } else {
        assert(s.take(s.len() as int) =~= s);
    }
}

/// Where `v[..end]` has its last `c`, plus one; zero when it has none.
fn last_index_plus_one(v: &Vec<char>, from: usize, end: usize, c: char) -> (k: usize)
    requires
        from <= end <= v.len(),
    ensures
        k == 0 || from < k <= end,
        k as int - 1 == (if last_index_of(v@.subrange(from as int, end as int), c) >= 0 {
            from + last_index_of(v@.subrange(from as int, end as int), c)
        } else {
            -1
        }),
{
    let ghost s = v@.subrange(from as int, end as int);
    let mut k = end;
    while k > from && v[k - 1] != c
        invariant
            from <= k <= end <= v.len(),
            s == v@.subrange(from as int, end as int),
            last_index_of(v@.subrange(from as int, k as int), c) == last_index_of(s, c),
        decreases k,
    {
        assert(v@.subrange(from as int, k as int).drop_last() =~= v@.subrange(
            from as int,
            k - 1,
        ));
        k = k - 1;
    }
    if k == from {
        assert(v@.subrange(from as int, k as int) =~= Seq::<char>::empty());
        0
    } else {
        k
    }
}

/// The `.stderr` file that goes with a `.science` source.
pub fn expectation_path(source: &str) -> (out: String)
    ensures
        out@ == with_extension(source@, EXPECTATION_EXTENSION@),
{
    let cs = chars_of(source);
    // Drop trailing separators and `.` components.
    let mut end = cs.len();
    assert(cs@.take(end as int) =~= cs@);
    while end > 0 && (cs[end - 1] == '/' || (end >= 2 && cs[end - 1] == '.' && cs[end - 2] == '/'))
        invariant
            end <= cs.len(),
            trim_tail(cs@.take(end as int)) == trim_tail(cs@),
        decreases end,
    {
        assert(cs@.take(end as int).drop_last() =~= cs@.take(end - 1));
        end = end - 1;
    }
    let ghost p = cs@.take(end as int);
    assert(trim_tail(p) == p);
    assert(p == trim_tail(source@));
    assert(cs@.subrange(0, end as int) =~= p);
    let slash_plus_one = last_index_plus_one(&cs, 0, end, '/');
    let ghost slash = last_index_of(p, '/');
    proof {
        lemma_last_index_of(p, '/');
    }
    let ghost name = p.skip(slash + 1);
    assert(name =~= cs@.subrange(slash_plus_one as int, end as int));
    let name_len = end - slash_plus_one;
    let is_dot = name_len == 1 && cs[slash_plus_one] == '.';
    let is_dot_dot = name_len == 2 && cs[slash_plus_one] == '.' && cs[slash_plus_one + 1] == '.';
    proof {
        reveal_strlit("stderr");
    }
    if name_len == 0 || is_dot || is_dot_dot {
        proof {
            if is_dot {
                assert(name =~= seq!['.']);
            }
            if is_dot_dot {
                assert(name =~= seq!['.', '.']);
            }
        }
        let mut out = String::new();
        push_str(&mut out, source);
        return out;
    }
    proof {
        if name_len == 1 {
            assert(name != seq!['.']) by {
                assert(name[0] != '.');
            }
        }
        if name_len == 2 {
            assert(name != seq!['.', '.']) by {
                assert(!(name[0] == '.' && name[1] == '.'));
            }
        }
    }
    let dot_plus_one = last_index_plus_one(&cs, slash_plus_one, end, '.');
    let stem_end = if dot_plus_one > slash_plus_one + 1 {
        dot_plus_one - 1
    } else {
        end
    };
    let mut out = String::new();
    push_chars(&mut out, &cs, 0, stem_end);
    push_char(&mut out, '.');
    push_str(&mut out, "stderr");
    assert(cs@.subrange(0, stem_end as int) =~= p.take(stem_end as int));
    out
}

/// The extension of the path's file name (see [`with_extension`]): what
/// follows the name's last `.`, unless that `.` starts the name; none when
/// the path has no file name or the name no such `.`.
pub open spec fn extension_of(path: Seq<char>) -> Option<Seq<char>> {
    let p = trim_tail(path);
    let slash = last_index_of(p, '/');
    let name = p.skip(slash + 1);
    if name.len() == 0 || name == seq!['.'] || name == seq!['.', '.'] {
        None
    } else {
        let dot = last_index_of(name, '.');
        if dot > 0 {
            Some(name.skip(dot + 1))
        } else {
            None
        }
    }
}

/// Whether a path names a UI test case: its file name's extension is
/// [`SOURCE_EXTENSION`].
pub fn is_case_source(path: &str) -> (r: bool)
    ensures
        r == (extension_of(path@) == Some(SOURCE_EXTENSION@)),
{
    let cs = chars_of(path);
    let mut end = cs.len();
    assert(cs@.take(end as int) =~= cs@);
    while end > 0 && (cs[end - 1] == '/' || (end >= 2 && cs[end - 1] == '.' && cs[end - 2] == '/'))
        invariant
            end <= cs.len(),
            trim_tail(cs@.take(end as int)) == trim_tail(cs@),
        decreases end,
    {
        assert(cs@.take(end as int).drop_last() =~= cs@.take(end - 1));
        end = end - 1;
    }
    let ghost p = cs@.take(end as int);
    assert(trim_tail(p) == p);
    assert(p == trim_tail(path@));
    assert(cs@.subrange(0, end as int) =~= p);
    let slash_plus_one = last_index_plus_one(&cs, 0, end, '/');
    let ghost slash = last_index_of(p, '/');
    proof {
        lemma_last_index_of(p, '/');
    }
    let ghost name = p.skip(slash + 1);
    assert(name =~= cs@.subrange(slash_plus_one as int, end as int));
    let name_len = end - slash_plus_one;
    let is_dot = name_len == 1 && cs[slash_plus_one] == '.';
    let is_dot_dot = name_len == 2 && cs[slash_plus_one] == '.' && cs[slash_plus_one + 1] == '.';
    proof {
        reveal_strlit("science");
    }
    if name_len == 0 || is_dot || is_dot_dot {
        proof {
            if is_dot {
                assert(name =~= seq!['.']);
            }
            if is_dot_dot {
                assert(name =~= seq!['.', '.']);
            }
        }
        return false;
    }
    proof {
        if name_len == 1 {
            assert(name != seq!['.']) by {
                assert(name[0] != '.');
            }
        }
        if name_len == 2 {
            assert(name != seq!['.', '.']) by {
                assert(!(name[0] == '.' && name[1] == '.'));
            }
        }
    }
    let dot_plus_one = last_index_plus_one(&cs, slash_plus_one, end, '.');
    if dot_plus_one <= slash_plus_one + 1 {
        return false;
    }
    let ghost ext = name.skip(last_index_of(name, '.') + 1);
    assert(ext =~= cs@.subrange(dot_plus_one as int, end as int));
    assert(extension_of(path@) == Some(ext));
    let want = chars_of(SOURCE_EXTENSION);
    if end - dot_plus_one != want.len() {
        assert(ext.len() != SOURCE_EXTENSION@.len());
        assert(ext != SOURCE_EXTENSION@);
        assert(extension_of(path@) == Some(ext));
        return false;
    }
    let mut k: usize = 0;
    while k < want.len()
        invariant
            want@ == SOURCE_EXTENSION@,
            dot_plus_one + want@.len() == end,
            end <= cs@.len(),
            ext == cs@.subrange(dot_plus_one as int, end as int),
            extension_of(path@) == Some(ext),
            k <= want@.len(),
            forall|j: int| 0 <= j < k ==> ext[j] == want@[j],
        decreases want@.len() - k,
    {
        if cs[dot_plus_one + k] != want[k] {
            assert(ext[k as int] != want@[k as int]);
            return false;
        }
        k = k + 1;
    }
    assert(ext =~= want@);
    true
}

// ---------------------------------------------------------------------------
// Options and failures
// ---------------------------------------------------------------------------

/// How a run should behave.
#[derive(Debug, Clone, Copy, Default, PartialEq, Eq)]
pub struct UiTestOptions {
    /// Rewrite every expectation file with the output obtained, rather than
    /// comparing against it. A missing expectation is written regardless.
    pub bless: bool,
}

impl UiTestOptions {
    /// The options a value of the bless variable stands for: `bless` is on
    /// when it is exactly `1`, and any other value, an empty one included,
    /// leaves it off.
    pub fn from_bless_value(value: Option<&str>) -> (options: UiTestOptions)
        ensures
            options.bless == (value matches Some(v) && v@ == "1"@),
    {
        match value {
            Some(v) => UiTestOptions { bless: str_eq(v, "1") },
            None => UiTestOptions { bless: false },
        }
    }
}

/// Why one case failed, and the diff that shows it.
#[derive(Debug, Clone)]
pub struct UiFailure {
    /// The `.science` program.
    pub source: String,
    /// The `.stderr` file it was compared against.
    pub expectation: String,
    /// One line saying what went wrong.
    pub reason: String,
    /// The rendered line-by-line diff, empty when there is nothing to diff.
    pub diff: String,
}

/// What a [`UiFailure`] holds.
pub ghost struct FailureView {
    pub source: Seq<char>,
    pub expectation: Seq<char>,
    pub reason: Seq<char>,
    pub diff: Seq<char>,
}

impl View for UiFailure {
    type V = FailureView;

    open spec fn view(&self) -> FailureView {
        FailureView {
            source: self.source@,
            expectation: self.expectation@,
            reason: self.reason@,
            diff: self.diff@,
        }
    }
}

/// Each line, indented by two spaces and ended.
pub open spec fn indented(ls: Seq<Seq<char>>) -> Seq<char>
    decreases ls.len(),
{
    if ls.len() == 0 {
        seq![]
    } else {
        indented(ls.drop_last()) + "  "@ + ls.last() + "\n"@
    }
}

/// How a failure reads in a report.
pub open spec fn failure_text(f: FailureView) -> Seq<char> {
    "FAILED "@ + f.source + "\n"@ + "  "@ + f.reason + "\n"@ + "  expectation: "@
        + f.expectation + "\n"@ + indented(lines(f.diff))
}

impl UiFailure {
    /// The failure as it reads in a report: the source, the reason, the
    /// expectation file, then the diff indented.
    pub fn text(&self) -> (out: String)
        ensures
            out@ == failure_text(self@),
    {
        let mut out = String::new();
        push_str(&mut out, "FAILED ");
        push_str(&mut out, self.source.as_str());
        push_str(&mut out, "\n");
        push_str(&mut out, "  ");
        push_str(&mut out, self.reason.as_str());
        push_str(&mut out, "\n");
        push_str(&mut out, "  expectation: ");
        push_str(&mut out, self.expectation.as_str());
        push_str(&mut out, "\n");
        let ghost head = out@;
        let diff_lines = lines_of(self.diff.as_str());
        let ghost ls = views(diff_lines@);
        let mut k: usize = 0;
        while k < diff_lines.len()
            invariant
                k <= diff_lines.len(),
                ls == views(diff_lines@),
                out@ == head + indented(ls.take(k as int)),
            decreases diff_lines.len() - k,
        {
            push_str(&mut out, "  ");
            push_str(&mut out, diff_lines[k]);
            push_str(&mut out, "\n");
            assert(ls.take(k + 1).drop_last() =~= ls.take(k as int));
            k = k + 1;
        }
        assert(ls.take(k as int) =~= ls);
        out
    }
}

// ---------------------------------------------------------------------------
// The report
// ---------------------------------------------------------------------------

/// What a run found.
#[derive(Debug, Clone)]
pub struct UiTestReport {
    directory: String,
    passed: Vec<String>,
    blessed: Vec<String>,
    failures: Vec<UiFailure>,
}

/// What a [`UiTestReport`] holds.
pub ghost struct ReportView {
    pub directory: Seq<char>,
    pub passed: Seq<Seq<char>>,
    pub blessed: Seq<Seq<char>>,
    pub failures: Seq<FailureView>,
}

/// The views of a list of strings.
pub open spec fn strings_view(v: Seq<String>) -> Seq<Seq<char>> {
    v.map_values(|s: String| s@)
}

/// The views of a list of failures.
pub open spec fn failures_view(v: Seq<UiFailure>) -> Seq<FailureView> {
    v.map_values(|f: UiFailure| f@)
}

impl View for UiTestReport {
    type V = ReportView;

    closed spec fn view(&self) -> ReportView {
        ReportView {
            directory: self.directory@,
            passed: strings_view(self.passed@),
            blessed: strings_view(self.blessed@),
            failures: failures_view(self.failures@),
        }
    }
}

/// What a finished case has to say in a report: what it was, and whether
/// it is on the list at all.
pub enum Expectation {
    /// There is no expectation file yet.
    Missing,
    /// The expectation file exists and could not be read, for this reason.
    Unreadable(String),
    /// The expectation file's text, as read.
    Found(String),
}

/// The line a report's counts stand on.
pub open spec fn counts_line(r: ReportView) -> Seq<char> {
    "ui tests in "@ + r.directory + ": "@ + decimal(r.passed.len()) + " passed, "@ + decimal(
        r.failures.len(),
    ) + " failed, "@ + decimal(r.blessed.len()) + " blessed\n"@
}

/// One line per blessed case.
pub open spec fn blessed_lines(paths: Seq<Seq<char>>) -> Seq<char>
    decreases paths.len(),
{
    if paths.len() == 0 {
        seq![]
    } else {
        blessed_lines(paths.drop_last()) + "blessed "@ + paths.last() + "\n"@
    }
}

/// Every failure, each after a blank line.
pub open spec fn failure_blocks(fs: Seq<FailureView>) -> Seq<char>
    decreases fs.len(),
{
    if fs.len() == 0 {
        seq![]
    } else {
        failure_blocks(fs.drop_last()) + "\n"@ + failure_text(fs.last())
    }
}

/// How a report that has a failure ends: how to update the expectations.
pub open spec fn bless_hint() -> Seq<char> {
    "\nIf these outputs are the new correct ones, rerun with SCIENCE_BLESS=1 to overwrite the expectation files, then read `git diff` before committing.\n"@
}

/// The whole report as text.
pub open spec fn summary_text(r: ReportView) -> Seq<char> {
    counts_line(r) + blessed_lines(r.blessed) + failure_blocks(r.failures) + if r.failures.len()
        == 0 {
        seq![]
    } else {
        bless_hint()
    }
}

/// The reason a case whose output differs from its expectation fails with.
pub open spec fn differs_reason() -> Seq<char> {
    "the diagnostics produced differ from the expectation"@
}

impl UiTestReport {
    /// An empty report for the directory `directory`.
    pub fn new(directory: &str) -> (report: UiTestReport)
        ensures
            report@.directory == directory@,
            report@.passed.len() == 0,
            report@.blessed.len() == 0,
            report@.failures.len() == 0,
    {
        let mut d = String::new();
        push_str(&mut d, directory);
        let report = UiTestReport {
            directory: d,
            passed: Vec::new(),
            blessed: Vec::new(),
            failures: Vec::new(),
        };
        proof {
            assert(strings_view(report.passed@) =~= Seq::<Seq<char>>::empty());
            assert(strings_view(report.blessed@) =~= Seq::<Seq<char>>::empty());
            assert(failures_view(report.failures@) =~= Seq::<FailureView>::empty());
        }
        report
    }

    /// The directory that was walked.
    pub fn directory(&self) -> (d: &str)
        ensures
            d@ == self@.directory,
    {
        self.directory.as_str()
    }

    /// How many cases matched their expectation.
    pub fn passed(&self) -> (n: usize)
        ensures
            n == self@.passed.len(),
    {
        self.passed.len()
    }

    /// How many cases did not.
    pub fn failed(&self) -> (n: usize)
        ensures
            n == self@.failures.len(),
    {
        self.failures.len()
    }

    /// How many expectation files were written rather than compared.
    pub fn blessed(&self) -> (n: usize)
        ensures
            n == self@.blessed.len(),
    {
        self.blessed.len()
    }

    /// Every case considered.
    pub fn total(&self) -> (n: usize)
        requires
            self@.passed.len() + self@.failures.len() + self@.blessed.len() <= usize::MAX,
        ensures
            n == self@.passed.len() + self@.failures.len() + self@.blessed.len(),
    {
        self.passed() + self.failed() + self.blessed()
    }

    /// The cases that matched their expectation.
    pub fn passed_cases(&self) -> (cases: &[String])
        ensures
            strings_view(cases@) == self@.passed,
    {
        self.passed.as_slice()
    }

    /// The cases whose expectation was written.
    pub fn blessed_cases(&self) -> (cases: &[String])
        ensures
            strings_view(cases@) == self@.blessed,
    {
        self.blessed.as_slice()
    }

    /// The cases that failed.
    pub fn failures(&self) -> (failures: &[UiFailure])
        ensures
            failures_view(failures@) == self@.failures,
    {
        self.failures.as_slice()
    }

    /// Nothing failed. A blessed case is not a failure: blessing is the
    /// documented way of creating or updating an expectation.
    pub fn is_ok(&self) -> (ok: bool)
        ensures
            ok == (self@.failures.len() == 0),
    {
        self.failures.len() == 0
    }

    /// The whole report as text: the counts, then every blessed case, then
    /// every failure with its diff, then how to update the expectations.
    pub fn summary(&self) -> (out: String)
        ensures
            out@ == summary_text(self@),
    {
        let mut out = String::new();
        push_str(&mut out, "ui tests in ");
        push_str(&mut out, self.directory.as_str());
        push_str(&mut out, ": ");
        push_decimal(&mut out, self.passed.len());
        push_str(&mut out, " passed, ");
        push_decimal(&mut out, self.failures.len());
        push_str(&mut out, " failed, ");
        push_decimal(&mut out, self.blessed.len());
        push_str(&mut out, " blessed\n");
        let ghost head = out@;
        let ghost bl = strings_view(self.blessed@);
        let mut k: usize = 0;
        while k < self.blessed.len()
            invariant
                k <= self.blessed.len(),
                bl == strings_view(self.blessed@),
                out@ == head + blessed_lines(bl.take(k as int)),
            decreases self.blessed.len() - k,
        {
            push_str(&mut out, "blessed ");
            push_str(&mut out, self.blessed[k].as_str());
            push_str(&mut out, "\n");
            assert(bl.take(k + 1).drop_last() =~= bl.take(k as int));
            k = k + 1;
        }
        assert(bl.take(k as int) =~= bl);
        let ghost middle = out@;
        let ghost fl = failures_view(self.failures@);
        let mut k: usize = 0;
        while k < self.failures.len()
            invariant
                k <= self.failures.len(),
                fl == failures_view(self.failures@),
                out@ == middle + failure_blocks(fl.take(k as int)),
            decreases self.failures.len() - k,
        {
            push_str(&mut out, "\n");
            let text = self.failures[k].text();
            push_str(&mut out, text.as_str());
            assert(fl.take(k + 1).drop_last() =~= fl.take(k as int));
            k = k + 1;
        }
        assert(fl.take(k as int) =~= fl);
        if self.failures.len() != 0 {
            push_str(
                &mut out,
                "\nIf these outputs are the new correct ones, rerun with SCIENCE_BLESS=1 to overwrite the expectation files, then read `git diff` before committing.\n",
            );
        }
        out
    }

    /// Ends the run quietly when nothing failed; a run with a failure is not
    /// one this is called on, and [`UiTestReport::summary`] is what reports it.
    pub fn assert_success(&self)
        requires
            self@.failures.len() == 0,
    {
    }

    /// Records that the directory could not be read.
    pub fn directory_unreadable(&mut self, error: &str)
        ensures
            final(self)@.directory == old(self)@.directory,
            final(self)@.passed == old(self)@.passed,
            final(self)@.blessed == old(self)@.blessed,
            final(self)@.failures == old(self)@.failures.push(
                FailureView {
                    source: old(self)@.directory,
                    expectation: old(self)@.directory,
                    reason: "could not read the UI test directory "@ + old(self)@.directory
                        + ": "@ + error@,
                    diff: seq![],
                },
            ),
    {
        let mut reason = String::new();
        push_str(&mut reason, "could not read the UI test directory ");
        push_str(&mut reason, self.directory.as_str());
        push_str(&mut reason, ": ");
        push_str(&mut reason, error);
        let failure = UiFailure {
            source: self.directory.clone(),
            expectation: self.directory.clone(),
            reason,
            diff: String::new(),
        };
        self.push_failure(failure);
    }

    /// Records that a case's source could not be read.
    pub fn source_unreadable(&mut self, source: &str, error: &str)
        ensures
            final(self)@.directory == old(self)@.directory,
            final(self)@.passed == old(self)@.passed,
            final(self)@.blessed == old(self)@.blessed,
            final(self)@.failures == old(self)@.failures.push(
                FailureView {
                    source: source@,
                    expectation: with_extension(source@, EXPECTATION_EXTENSION@),
                    reason: "could not read the source: "@ + error@,
                    diff: seq![],
                },
            ),
    {
        let mut reason = String::new();
        push_str(&mut reason, "could not read the source: ");
        push_str(&mut reason, error);
        let mut s = String::new();
        push_str(&mut s, source);
        let failure = UiFailure {
            source: s,
            expectation: expectation_path(source),
            reason,
            diff: String::new(),
        };
        self.push_failure(failure);
    }

    /// Compares a case's output with its expectation, or says what to write.
    ///
    /// `output` is what compiling the case gave. When the expectation is
    /// missing, or the run blesses, nothing is recorded and the normalised
    /// output comes back: it is what the expectation file should now hold,
    /// and [`UiTestReport::record_write`] records how writing it went.
    /// Otherwise the case is recorded as passed when the two normalised
    /// texts are identical, and as failed, with their diff, when they are not
    /// or when the expectation could not be read.
    pub fn check_case(
        &mut self,
        source: &str,
        options: UiTestOptions,
        output: &str,
        expectation: Expectation,
    ) -> (to_write: Option<String>)
        ensures
            final(self)@.directory == old(self)@.directory,
            final(self)@.blessed == old(self)@.blessed,
            match expectation {
                Expectation::Unreadable(e) => {
                    &&& to_write is None
                    &&& final(self)@.passed == old(self)@.passed
                    &&& final(self)@.failures == old(self)@.failures.push(
                        FailureView {
                            source: source@,
                            expectation: with_extension(source@, EXPECTATION_EXTENSION@),
                            reason: "could not read the expectation: "@ + e@,
                            diff: seq![],
                        },
                    )
                },
                Expectation::Missing => {
                    &&& to_write matches Some(w) && w@ == normalized(output@)
                    &&& final(self)@.passed == old(self)@.passed
                    &&& final(self)@.failures == old(self)@.failures
                },
                Expectation::Found(text) => if options.bless {
                    &&& to_write matches Some(w) && w@ == normalized(output@)
                    &&& final(self)@.passed == old(self)@.passed
                    &&& final(self)@.failures == old(self)@.failures
                } else if normalized(text@) == normalized(output@) {
                    &&& to_write is None
                    &&& final(self)@.passed == old(self)@.passed.push(source@)
                    &&& final(self)@.failures == old(self)@.failures
                } else {
                    &&& to_write is None
                    &&& final(self)@.passed == old(self)@.passed
                    &&& final(self)@.failures == old(self)@.failures.push(
                        FailureView {
                            source: source@,
                            expectation: with_extension(source@, EXPECTATION_EXTENSION@),
                            reason: differs_reason(),
                            diff: rendering(normalized(text@), normalized(output@)),
                        },
                    )
                },
            },
    {
        let actual = normalize(output);
        match expectation {
            Expectation::Unreadable(e) => {
                let mut reason = String::new();
                push_str(&mut reason, "could not read the expectation: ");
                push_str(&mut reason, e.as_str());
                let mut s = String::new();
                push_str(&mut s, source);
                let failure = UiFailure {
                    source: s,
                    expectation: expectation_path(source),
                    reason,
                    diff: String::new(),
                };
                self.push_failure(failure);
                None
            },
            Expectation::Missing => Some(actual),
            Expectation::Found(text) => {
                if options.bless {
                    return Some(actual);
                }
                let expected = normalize(text.as_str());
                if str_eq(expected.as_str(), actual.as_str()) {
                    let mut s = String::new();
                    push_str(&mut s, source);
                    self.passed.push(s);
                    proof {
                        assert(strings_view(self.passed@) =~= strings_view(old(self).passed@).push(
                            source@,
                        ));
                    }
                } else {
                    let mut reason = String::new();
                    push_str(&mut reason, "the diagnostics produced differ from the expectation");
                    let mut s = String::new();
                    push_str(&mut s, source);
                    let failure = UiFailure {
                        source: s,
                        expectation: expectation_path(source),
                        reason,
                        diff: render(expected.as_str(), actual.as_str()),
                    };
                    self.push_failure(failure);
                }
                None
            },
        }
    }

    /// Records how writing a case's expectation went: a case whose expectation
    /// was written is blessed, and one whose write failed is a failure.
    pub fn record_write(&mut self, source: &str, result: Result<(), String>)
        ensures
            final(self)@.directory == old(self)@.directory,
            final(self)@.passed == old(self)@.passed,
            match result {
                Ok(()) => {
                    &&& final(self)@.blessed == old(self)@.blessed.push(source@)
                    &&& final(self)@.failures == old(self)@.failures
                },
                Err(e) => {
                    &&& final(self)@.blessed == old(self)@.blessed
                    &&& final(self)@.failures == old(self)@.failures.push(
                        FailureView {
                            source: source@,
                            expectation: with_extension(source@, EXPECTATION_EXTENSION@),
                            reason: "could not write the expectation: "@ + e@,
                            diff: seq![],
                        },
                    )
                },
            },
    {
        match result {
            Ok(()) => {
                let mut s = String::new();
                push_str(&mut s, source);
                self.blessed.push(s);
                proof {
                    assert(strings_view(self.blessed@) =~= strings_view(old(self).blessed@).push(
                        source@,
                    ));
                }
            },
            Err(e) => {
                let mut reason = String::new();
                push_str(&mut reason, "could not write the expectation: ");
                push_str(&mut reason, e.as_str());
                let mut s = String::new();
                push_str(&mut s, source);
                let failure = UiFailure {
                    source: s,
                    expectation: expectation_path(source),
                    reason,
                    diff: String::new(),
                };
                self.push_failure(failure);
            },
        }
    }

    fn push_failure(&mut self, failure: UiFailure)
        ensures
            final(self)@.directory == old(self)@.directory,
            final(self)@.passed == old(self)@.passed,
            final(self)@.blessed == old(self)@.blessed,
            final(self)@.failures == old(self)@.failures.push(failure@),
    {
        self.failures.push(failure);
        proof {
            assert(failures_view(self.failures@) =~= failures_view(old(self).failures@).push(
                failure@,
            ));
        }
    }
}

} // verus!
