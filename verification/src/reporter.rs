//! The text of a report: where each diagnostic points, and the summary
//! line's counts and wording. Colouring is left to the caller.
use vstd::prelude::*;
use crate::diagnostic::{Diagnostic, DiagnosticView, Severity};
use crate::path_utils::{spec_strip_prefix, strip_prefix};
use crate::text::{decimal, decimal_string, push_char, push_text};

verus! {

/// How many of the diagnostics have severity `s`.
pub open spec fn count_with_severity(ds: Seq<DiagnosticView>, s: Severity) -> nat
    decreases ds.len(),
{
    if ds.len() == 0 {
        0
    } else {
        count_with_severity(ds.drop_last(), s) + if ds.last().severity == s {
            1nat
        } else {
            0nat
        }
    }
}

/// How many of the diagnostics have a fix.
pub open spec fn count_fixable(ds: Seq<DiagnosticView>) -> nat
    decreases ds.len(),
{
    if ds.len() == 0 {
        0
    } else {
        count_fixable(ds.drop_last()) + if ds.last().fixes.len() > 0 {
            1nat
        } else {
            0nat
        }
    }
}

proof fn lemma_counts_bounded(ds: Seq<DiagnosticView>, s: Severity)
    ensures
        count_with_severity(ds, s) <= ds.len(),
        count_fixable(ds) <= ds.len(),
    decreases ds.len(),
{
    if ds.len() > 0 {
        lemma_counts_bounded(ds.drop_last(), s);
    }
}

/// The number of diagnostics with severity `severity`.
pub fn severity_count(diagnostics: &Vec<Diagnostic>, severity: Severity) -> (r: usize)
    ensures
        r == count_with_severity(diagnostics.deep_view(), severity),
{
    let ghost dv = diagnostics.deep_view();
    let mut n: usize = 0;
    let mut i: usize = 0;
    while i < diagnostics.len()
        invariant
            i <= dv.len(),
            dv == diagnostics.deep_view(),
            dv.len() == diagnostics@.len(),
            n == count_with_severity(dv.take(i as int), severity),
        decreases diagnostics.len() - i,
    {
        assert(dv.take(i + 1).drop_last() =~= dv.take(i as int));
        assert(dv.take(i + 1).last() == diagnostics@[i as int].deep_view());
        proof {
            lemma_counts_bounded(dv.take(i as int), severity);
        }
        if diagnostics[i].severity == severity {
            n = n + 1;
        }
        i = i + 1;
    }
    assert(dv.take(dv.len() as int) =~= dv);
    n
}

/// The number of diagnostics that have a fix.
pub fn fixable_count(diagnostics: &Vec<Diagnostic>) -> (r: usize)
    ensures
        r == count_fixable(diagnostics.deep_view()),
{
    let ghost dv = diagnostics.deep_view();
    let mut n: usize = 0;
    let mut i: usize = 0;
    while i < diagnostics.len()
        invariant
            i <= dv.len(),
            dv == diagnostics.deep_view(),
            dv.len() == diagnostics@.len(),
            n == count_fixable(dv.take(i as int)),
        decreases diagnostics.len() - i,
    {
        assert(dv.take(i + 1).drop_last() =~= dv.take(i as int));
        assert(dv.take(i + 1).last() == diagnostics@[i as int].deep_view());
        proof {
            lemma_counts_bounded(dv.take(i as int), Severity::Off);
        }
        if diagnostics[i].fixes.len() != 0 {
            n = n + 1;
        }
        i = i + 1;
    }
    assert(dv.take(dv.len() as int) =~= dv);
    n
}

/// `"{n} {noun}"`, with an `s` after the noun unless `n` is 1.
pub open spec fn spec_count_text(n: nat, noun: Seq<char>) -> Seq<char> {
    decimal(n) + seq![' '] + noun + if n == 1 {
        Seq::empty()
    } else {
        seq!['s']
    }
}

pub fn count_text(n: usize, noun: &str) -> (r: String)
    ensures
        r@ == spec_count_text(n as nat, noun@),
{
    let mut r = decimal_string(n);
    push_char(&mut r, ' ');
    push_text(&mut r, noun);
    if n != 1 {
        push_char(&mut r, 's');
    }
    assert(r@ =~= spec_count_text(n as nat, noun@));
    r
}

/// What the summary says of fixes: none, all, or how many can be fixed.
pub open spec fn spec_fixes_text(fixable: nat, total: nat) -> Seq<char> {
    if fixable == 0 {
        "none can be fixed automatically"@
    } else if fixable == total {
        "all can be fixed automatically with --fix"@
    } else {
        decimal(fixable) + " can be fixed automatically with --fix"@
    }
}

pub fn fixes_text(fixable: usize, total: usize) -> (r: String)
    ensures
        r@ == spec_fixes_text(fixable as nat, total as nat),
{
    if fixable == 0 {
        "none can be fixed automatically".to_owned()
    } else if fixable == total {
        "all can be fixed automatically with --fix".to_owned()
    } else {
        let mut r = decimal_string(fixable);
        push_text(&mut r, " can be fixed automatically with --fix");
        r
    }
}

/// The counts that the summary names: the errors, then the warnings, each
/// only when there are any.
pub open spec fn spec_summary_counts(errors: nat, warnings: nat) -> Seq<Seq<char>> {
    (if errors > 0 {
        seq![spec_count_text(errors, "error"@)]
    } else {
        Seq::empty()
    }) + (if warnings > 0 {
        seq![spec_count_text(warnings, "warning"@)]
    } else {
        Seq::empty()
    })
}

/// The parts joined by `" and "`.
pub open spec fn join_and(parts: Seq<Seq<char>>) -> Seq<char>
    decreases parts.len(),
{
    if parts.len() == 0 {
        Seq::empty()
    } else if parts.len() == 1 {
        parts[0]
    } else {
        join_and(parts.drop_last()) + " and "@ + parts.last()
    }
}

/// The summary line: `"Found {counts joined by and} ({fixes})"`.
pub open spec fn spec_summary_line(counts: Seq<Seq<char>>, fixes: Seq<char>) -> Seq<char> {
    "Found "@ + join_and(counts) + " ("@ + fixes + ")"@
}

/// The summary line from its (possibly coloured) count texts.
pub fn summary_line(counts: &Vec<String>, fixes: &str) -> (r: String)
    ensures
        r@ == spec_summary_line(counts.deep_view(), fixes@),
{
    let ghost cv = counts.deep_view();
    let mut joined = String::new();
    let mut i: usize = 0;
    assert(joined@ =~= join_and(cv.take(0)));
    while i < counts.len()
        invariant
            i <= counts@.len(),
            cv == counts.deep_view(),
            joined@ == join_and(cv.take(i as int)),
        decreases counts.len() - i,
    {
        assert(cv.take(i + 1).drop_last() =~= cv.take(i as int));
        assert(cv.take(i + 1).last() == counts@[i as int]@);
        if i > 0 {
            push_text(&mut joined, " and ");
        } else {
            assert(cv.take(1)[0] == counts@[0]@);
            assert(joined@ =~= Seq::<char>::empty());
        }
        push_text(&mut joined, counts[i].as_str());
        assert(joined@ =~= join_and(cv.take(i + 1)));
        i = i + 1;
    }
    assert(cv.take(cv.len() as int) =~= cv);
    let mut r = String::new();
    push_text(&mut r, "Found ");
    push_text(&mut r, joined.as_str());
    push_text(&mut r, " (");
    push_text(&mut r, fixes);
    push_text(&mut r, ")");
    assert(r@ =~= spec_summary_line(cv, fixes@));
    r
}

/// The plain summary line of a report with these counts.
pub fn summary_text(errors: usize, warnings: usize, fixable: usize, total: usize) -> (r: String)
    ensures
        r@ == spec_summary_line(spec_summary_counts(errors as nat, warnings as nat), spec_fixes_text(fixable as nat, total as nat)),
{
    let mut counts: Vec<String> = Vec::new();
    if errors > 0 {
        counts.push(count_text(errors, "error"));
    }
    if warnings > 0 {
        counts.push(count_text(warnings, "warning"));
    }
    assert(counts.deep_view() =~= spec_summary_counts(errors as nat, warnings as nat));
    summary_line(&counts, fixes_text(fixable, total).as_str())
}

/// Where a diagnostic points, as the report shows it: its path relative to
/// `cwd` when it lies below it, then `:line` and `:line:column` when known.
pub open spec fn spec_location_text(path: Seq<char>, cwd: Seq<char>, line: Option<u32>, column: Option<u32>) -> Seq<char> {
    let shown = match spec_strip_prefix(path, cwd) {
        Some(rest) => rest,
        None => path,
    };
    match line {
        None => shown,
        Some(l) => match column {
            None => shown + seq![':'] + decimal(l as nat),
            Some(c) => shown + seq![':'] + decimal(l as nat) + seq![':'] + decimal(c as nat),
        },
    }
}

pub fn location_text(diagnostic: &Diagnostic, cwd: &str) -> (r: String)
    ensures
        r@ == spec_location_text(
            diagnostic.location.path@,
            cwd@,
            diagnostic.location.line,
            diagnostic.location.column,
        ),
{
    let mut r = match strip_prefix(diagnostic.location.path.as_str(), cwd) {
        Some(rest) => rest,
        None => diagnostic.location.path.clone(),
    };
    match diagnostic.location.line {
        None => {},
        Some(l) => {
            push_char(&mut r, ':');
            push_text(&mut r, decimal_string(l as usize).as_str());
            match diagnostic.location.column {
                None => {},
                Some(c) => {
                    push_char(&mut r, ':');
                    push_text(&mut r, decimal_string(c as usize).as_str());
                },
            }
        },
    }
    r
}


/// The exit status of a run: 1 when an error remains, or a warning when
/// warnings fail the run; 0 otherwise.
pub open spec fn spec_exit_status(ds: Seq<DiagnosticView>, fail_on_warnings: bool) -> u8 {
    if count_with_severity(ds, Severity::Error) > 0 || (fail_on_warnings && count_with_severity(ds, Severity::Warn) > 0) {
        1
    } else {
        0
    }
}

pub fn exit_status(diagnostics: &Vec<Diagnostic>, fail_on_warnings: bool) -> (r: u8)
    ensures
        r == spec_exit_status(diagnostics.deep_view(), fail_on_warnings),
{
    let errors = severity_count(diagnostics, Severity::Error);
    let warnings = severity_count(diagnostics, Severity::Warn);
    if errors > 0 || (fail_on_warnings && warnings > 0) {
        1
    } else {
        0
    }
}

/// Errors make a run fail: the status is 1 exactly when some diagnostic
/// is an error, or, with `fail_on_warnings`, a warning.
pub proof fn lemma_exit_status(ds: Seq<DiagnosticView>, fail_on_warnings: bool)
    ensures
        (spec_exit_status(ds, fail_on_warnings) == 1) <==> (exists|i: int|
            0 <= i < ds.len() && ((#[trigger] ds[i]).severity == Severity::Error || (fail_on_warnings
                && ds[i].severity == Severity::Warn))),
{
    lemma_count_positive(ds, Severity::Error);
    lemma_count_positive(ds, Severity::Warn);
}

proof fn lemma_count_positive(ds: Seq<DiagnosticView>, s: Severity)
    ensures
        (count_with_severity(ds, s) > 0) <==> (exists|i: int| 0 <= i < ds.len() && (#[trigger] ds[i]).severity == s),
    decreases ds.len(),
{
    if ds.len() > 0 {
        let t = ds.drop_last();
        lemma_count_positive(t, s);
        if exists|i: int| 0 <= i < t.len() && (#[trigger] t[i]).severity == s {
            let i = choose|i: int| 0 <= i < t.len() && (#[trigger] t[i]).severity == s;
            assert(ds[i] == t[i]);
        }
        if exists|i: int| 0 <= i < ds.len() && (#[trigger] ds[i]).severity == s {
            let i = choose|i: int| 0 <= i < ds.len() && (#[trigger] ds[i]).severity == s;
            if i < ds.len() - 1 {
                assert(t[i] == ds[i]);
            }
        }
        assert(ds[ds.len() - 1] == ds.last());
    }
}

} // verus!
