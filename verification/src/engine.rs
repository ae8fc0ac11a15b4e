//! The lint run: each rule on the files its configuration leaves it, the
//! diagnostics of each rule in path order, and the final severities.
use vstd::prelude::*;
use crate::bindings::{lowercase, to_lowercase};
use crate::config::{Config, ConfigView, spec_severity_for_file, spec_severity_for_location};
use crate::diagnostic::{Diagnostic, DiagnosticView, Fix, FixView, Severity, duplicate_fixes};
use crate::fsd::{Project, ProjectView, spec_source_index};
use crate::imports::{ImportGraph, ImportGraphView};
use crate::order::{lemma_lex_transitive, lemma_lex_asymmetric, lemma_lex_irreflexive, lemma_lex_total, path_lt, str_lt, text_eq, text_lt};
use crate::rules::import_rules::ImportAnalysis;
use crate::rules::structural::{forms_for, naming_candidates, plural_forms, spec_naming_candidates, PluralForms};
use crate::rules::{all_rules, is_import_rule, run_rule, spec_all_rules, spec_is_import_rule, spec_run_rule, strs_view};

verus! {

/// Whether a diagnostic at `a` comes before one at `b`: by the lowercased
/// paths, then by the paths themselves.
pub open spec fn diag_path_lt(a: Seq<char>, b: Seq<char>) -> bool {
    str_lt(lowercase(a), lowercase(b)) || (lowercase(a) == lowercase(b) && path_lt(a, b))
}

pub open spec fn diag_before(a: DiagnosticView, b: DiagnosticView) -> bool {
    diag_path_lt(a.location.path, b.location.path)
}

/// Whether the diagnostic `a` sorts before `b` (see `diag_path_lt`).
pub fn diagnostic_before(a: &Diagnostic, b: &Diagnostic) -> (r: bool)
    ensures
        r == diag_before(a.deep_view(), b.deep_view()),
{
    let la = to_lowercase(a.location.path.as_str());
    let lb = to_lowercase(b.location.path.as_str());
    if text_lt(la.as_str(), lb.as_str(), false) {
        true
    } else if text_eq(la.as_str(), lb.as_str()) {
        text_lt(a.location.path.as_str(), b.location.path.as_str(), true)
    } else {
        false
    }
}

/// The order of two diagnostics by path: by the lowercased paths, then by
/// the paths themselves.
pub fn compare_diagnostic_paths(left: &Diagnostic, right: &Diagnostic) -> (r: std::cmp::Ordering)
    ensures
        (r == std::cmp::Ordering::Less) == diag_before(left.deep_view(), right.deep_view()),
        (r == std::cmp::Ordering::Greater) == diag_before(right.deep_view(), left.deep_view()),
        (r == std::cmp::Ordering::Equal) == (left.location.path@ == right.location.path@),
{
    proof {
        lemma_lex_total(lowercase(left.location.path@), lowercase(right.location.path@), false);
        lemma_lex_total(left.location.path@, right.location.path@, true);
        crate::order::lemma_lex_asymmetric(lowercase(left.location.path@), lowercase(right.location.path@), false);
        crate::order::lemma_lex_asymmetric(left.location.path@, right.location.path@, true);
        crate::order::lemma_lex_irreflexive(left.location.path@, true);
        crate::order::lemma_lex_irreflexive(lowercase(left.location.path@), false);
    }
    if diagnostic_before(left, right) {
        std::cmp::Ordering::Less
    } else if diagnostic_before(right, left) {
        std::cmp::Ordering::Greater
    } else {
        std::cmp::Ordering::Equal
    }
}

/// `sorted` with `d` inserted after every diagnostic that does not come
/// after it.
pub open spec fn insert_by_path(sorted: Seq<DiagnosticView>, d: DiagnosticView) -> Seq<DiagnosticView>
    decreases sorted.len(),
{
    if sorted.len() == 0 {
        seq![d]
    } else if diag_before(d, sorted.last()) {
        insert_by_path(sorted.drop_last(), d).push(sorted.last())
    } else {
        sorted.push(d)
    }
}

/// The diagnostics in path order, those at equal paths in their order: a
/// stable sort.
pub open spec fn sort_by_path(ds: Seq<DiagnosticView>) -> Seq<DiagnosticView>
    decreases ds.len(),
{
    if ds.len() == 0 {
        Seq::empty()
    } else {
        insert_by_path(sort_by_path(ds.drop_last()), ds.last())
    }
}

proof fn lemma_insert_at(s: Seq<DiagnosticView>, d: DiagnosticView, j: int)
    requires
        0 <= j <= s.len(),
        forall|k: int| j <= k < s.len() ==> diag_before(d, #[trigger] s[k]),
        j == 0 || !diag_before(d, s[j - 1]),
    ensures
        insert_by_path(s, d) == s.take(j) + seq![d] + s.skip(j),
    decreases s.len(),
{
    if s.len() == j {
        if j == 0 {
            assert(s.take(0) + seq![d] + s.skip(0) =~= seq![d]);
        } else {
            assert(s.take(j) + seq![d] + s.skip(j) =~= s.push(d));
        }
    } else {
        assert(diag_before(d, s[s.len() - 1]));
        let t = s.drop_last();
        assert forall|k: int| j <= k < t.len() implies diag_before(d, #[trigger] t[k]) by {
            assert(t[k] == s[k]);
        }
        if j > 0 {
            assert(t[j - 1] == s[j - 1]);
        }
        lemma_insert_at(t, d, j);
        assert((t.take(j) + seq![d] + t.skip(j)).push(s.last()) =~= s.take(j) + seq![d] + s.skip(j));
    }
}

/// The diagnostics in path order (see `sort_by_path`).
pub fn sort_diagnostics(ds: &Vec<Diagnostic>) -> (r: Vec<Diagnostic>)
    ensures
        r.deep_view() == sort_by_path(ds.deep_view()),
{
    let ghost dv = ds.deep_view();
    let mut r: Vec<Diagnostic> = Vec::new();
    assert(r.deep_view() =~= sort_by_path(dv.take(0)));
    let mut i: usize = 0;
    while i < ds.len()
        invariant
            i <= dv.len(),
            dv == ds.deep_view(),
            dv.len() == ds@.len(),
            r.deep_view() == sort_by_path(dv.take(i as int)),
        decreases ds.len() - i,
    {
        assert(dv.take(i + 1).drop_last() =~= dv.take(i as int));
        assert(dv.take(i + 1).last() == ds@[i as int].deep_view());
        let ghost s = r.deep_view();
        let mut j = r.len();
        while j > 0 && diagnostic_before(&ds[i], &r[j - 1])
            invariant
                j <= r@.len(),
                i < ds@.len(),
                s == r.deep_view(),
                forall|k: int| j <= k < s.len() ==> diag_before(ds@[i as int].deep_view(), #[trigger] s[k]),
            decreases j,
        {
            j = j - 1;
        }
        proof {
            lemma_insert_at(s, ds@[i as int].deep_view(), j as int);
        }
        r.insert(j, ds[i].duplicate());
        assert(r.deep_view() =~= s.take(j as int) + seq![ds@[i as int].deep_view()] + s.skip(j as int));
        i = i + 1;
    }
    assert(dv.take(dv.len() as int) =~= dv);
    r
}

/// The files for which `rule` is not `Off`, in order.
pub open spec fn kept_files(c: ConfigView, rule: Seq<char>, files: Seq<Seq<char>>) -> Seq<Seq<char>>
    decreases files.len(),
{
    if files.len() == 0 {
        Seq::empty()
    } else {
        let rest = kept_files(c, rule, files.drop_last());
        if spec_severity_for_file(c, rule, files.last()) != Severity::Off {
            rest.push(files.last())
        } else {
            rest
        }
    }
}

/// The project with only `files`.
pub open spec fn scoped(p: ProjectView, files: Seq<Seq<char>>) -> ProjectView {
    ProjectView { root: p.root, files: files }
}

/// What `rule` reports, in path order: it runs on the files that the
/// configuration leaves it, and not at all when it leaves it none of a
/// project that has files.
pub open spec fn rule_diagnostics(c: ConfigView, rule: Seq<char>, p: ProjectView, g: ImportGraphView, forms: PluralForms) -> Seq<DiagnosticView> {
    let kept = kept_files(c, rule, p.files);
    if p.files.len() > 0 && kept.len() == 0 {
        Seq::empty()
    } else {
        let sp = scoped(p, kept);
        sort_by_path(spec_run_rule(rule, sp, g, spec_source_index(sp), forms))
    }
}

pub open spec fn diagnostics_for(c: ConfigView, rules: Seq<Seq<char>>, p: ProjectView, g: ImportGraphView, forms: PluralForms) -> Seq<DiagnosticView>
    decreases rules.len(),
{
    if rules.len() == 0 {
        Seq::empty()
    } else {
        diagnostics_for(c, rules.drop_last(), p, g, forms) + rule_diagnostics(c, rules.last(), p, g, forms)
    }
}

/// The diagnostics of every built-in rule, rule by rule, before the
/// severities are applied, with the plural and singular forms of names that
/// `forms` lists.
pub open spec fn spec_collect_diagnostics(c: ConfigView, p: ProjectView, g: ImportGraphView, forms: PluralForms) -> Seq<DiagnosticView> {
    diagnostics_for(c, spec_all_rules(), p, g, forms)
}

fn append_diagnostics(r: &mut Vec<Diagnostic>, ds: &Vec<Diagnostic>)
    ensures
        final(r).deep_view() == old(r).deep_view() + ds.deep_view(),
{
    let ghost start = r.deep_view();
    let mut k: usize = 0;
    while k < ds.len()
        invariant
            k <= ds@.len(),
            r.deep_view() == start + ds.deep_view().take(k as int),
        decreases ds.len() - k,
    {
        let ghost b = r.deep_view();
        r.push(ds[k].duplicate());
        assert(r.deep_view() =~= b.push(ds.deep_view()[k as int]));
        assert(ds.deep_view().take(k + 1) =~= ds.deep_view().take(k as int).push(ds.deep_view()[k as int]));
        k = k + 1;
    }
    assert(ds.deep_view().take(ds@.len() as int) =~= ds.deep_view());
}

/// The files of the project for which `rule` is not `Off`, and whether that
/// is all of them.
fn kept_files_exec(config: &Config, rule: &str, files: &Vec<String>) -> (r: (Vec<String>, bool))
    requires
        config.wf(),
    ensures
        r.0.deep_view() == kept_files(config.deep_view(), rule@, files.deep_view()),
        r.1 ==> r.0.deep_view() == files.deep_view(),
        !r.1 ==> r.0@.len() < files@.len(),
{
    let ghost fv = files.deep_view();
    let mut kept: Vec<String> = Vec::new();
    let mut all = true;
    assert(kept.deep_view() =~= kept_files(config.deep_view(), rule@, fv.take(0)));
    let mut i: usize = 0;
    while i < files.len()
        invariant
            i <= fv.len(),
            fv == files.deep_view(),
            fv.len() == files@.len(),
            config.wf(),
            kept.deep_view() == kept_files(config.deep_view(), rule@, fv.take(i as int)),
            all ==> kept.deep_view() == fv.take(i as int),
            !all ==> kept@.len() < i,
            kept@.len() <= i,
        decreases files.len() - i,
    {
        assert(fv.take(i + 1).drop_last() =~= fv.take(i as int));
        assert(fv.take(i + 1).last() == files@[i as int]@);
        if config.severity_for_file(rule, files[i].as_str()) != Severity::Off {
            let ghost b = kept.deep_view();
            kept.push(files[i].clone());
            assert(kept.deep_view() =~= b.push(files@[i as int]@));
        } else {
            all = false;
        }
        i = i + 1;
    }
    assert(fv.take(fv.len() as int) =~= fv);
    (kept, all)
}

/// Runs every built-in rule: asks `pluralizer` for the forms of the names
/// of the entities layer's folders (see `spec_naming_candidates`), then
/// runs the rules with them. Whatever forms it gave, the result is what the
/// rules report with those forms.
pub fn collect_diagnostics(project: &Project, graph: &ImportGraph, config: &Config) -> (r: Vec<Diagnostic>)
    requires
        project.wf(),
        config.wf(),
    ensures
        exists|forms: PluralForms|
            forms_for(forms, spec_naming_candidates(project.deep_view())) && r.deep_view()
                == spec_collect_diagnostics(config.deep_view(), project.deep_view(), graph.deep_view(), forms),
{
    let names = naming_candidates(project);
    let forms = plural_forms(&names);
    let r = collect_diagnostics_with(project, graph, config, &forms);
    assert(forms_for(forms.deep_view(), spec_naming_candidates(project.deep_view())));
    r
}

/// Runs every built-in rule with the plural and singular forms of names that
/// `forms` lists (see `spec_collect_diagnostics`).
pub fn collect_diagnostics_with(
    project: &Project,
    graph: &ImportGraph,
    config: &Config,
    forms: &Vec<(String, String, String)>,
) -> (r: Vec<Diagnostic>)
    requires
        project.wf(),
        config.wf(),
    ensures
        r.deep_view() == spec_collect_diagnostics(config.deep_view(), project.deep_view(), graph.deep_view(), forms.deep_view()),
{
    let ghost fv = forms.deep_view();
    let index = project.source_index();
    let analysis = ImportAnalysis::new(graph, &index);
    let rules = all_rules();
    let ghost rv = strs_view(rules@);
    let ghost pv = project.deep_view();
    let ghost cv = config.deep_view();
    let ghost gv = graph.deep_view();
    let mut r: Vec<Diagnostic> = Vec::new();
    assert(r.deep_view() =~= diagnostics_for(cv, rv.take(0), pv, gv, fv));
    let mut i: usize = 0;
    while i < rules.len()
        invariant
            i <= rules@.len(),
            rv == strs_view(rules@),
            rv == spec_all_rules(),
            project.wf(),
            config.wf(),
            pv == project.deep_view(),
            cv == config.deep_view(),
            gv == graph.deep_view(),
            analysis.wf(),
            analysis.graph == graph,
            analysis.index.deep_view() == spec_source_index(pv),
            fv == forms.deep_view(),
            r.deep_view() == diagnostics_for(cv, rv.take(i as int), pv, gv, fv),
        decreases rules.len() - i,
    {
        assert(rv.take(i + 1).drop_last() =~= rv.take(i as int));
        assert(rv.take(i + 1).last() == rules@[i as int]@);
        let rule = rules[i];
        let (kept, all) = kept_files_exec(config, rule, &project.files);
        if all {
            assert(scoped(pv, kept.deep_view()) == pv);
            let ds = run_rule(rule, project, &analysis, forms);
            let sorted = sort_diagnostics(&ds);
            append_diagnostics(&mut r, &sorted);
        } else if kept.len() != 0 {
            let sub = project.with_files(kept);
            let ghost sv = sub.deep_view();
            assert(sv == scoped(pv, kept_files(cv, rule@, pv.files)));
            let ds = if is_import_rule(rule) {
                let sub_index = sub.source_index();
                let sub_analysis = ImportAnalysis::new(graph, &sub_index);
                run_rule(rule, &sub, &sub_analysis, forms)
            } else {
                run_rule(rule, &sub, &analysis, forms)
            };
            let sorted = sort_diagnostics(&ds);
            append_diagnostics(&mut r, &sorted);
        }
        i = i + 1;
    }
    assert(rv.take(rv.len() as int) =~= rv);
    r
}

pub open spec fn with_severity(d: DiagnosticView, s: Severity) -> DiagnosticView {
    DiagnosticView { severity: s, ..d }
}

/// Each diagnostic at the severity of its rule for its location, and those
/// at `Off` dropped; `is_file` says of each location whether it is a file.
pub open spec fn severities_applied(
    c: ConfigView,
    ds: Seq<DiagnosticView>,
    files: Seq<Seq<char>>,
    is_file: Seq<bool>,
) -> Seq<DiagnosticView>
    decreases ds.len(),
{
    if ds.len() == 0 {
        Seq::empty()
    } else {
        let rest = severities_applied(c, ds.drop_last(), files, is_file.drop_last());
        let d = ds.last();
        let s = spec_severity_for_location(c, d.rule_name, d.location.path, files, is_file.last());
        if s != Severity::Off {
            rest.push(with_severity(d, s))
        } else {
            rest
        }
    }
}

/// Applies the configured severities (see `severities_applied`).
/// `location_is_file[i]` tells whether the location of `diagnostics[i]` is
/// a file on disk.
pub fn apply_severities(
    config: &Config,
    diagnostics: Vec<Diagnostic>,
    project_files: &Vec<String>,
    location_is_file: &Vec<bool>,
) -> (r: Vec<Diagnostic>)
    requires
        config.wf(),
        location_is_file@.len() == diagnostics@.len(),
    ensures
        r.deep_view() == severities_applied(
            config.deep_view(),
            diagnostics.deep_view(),
            project_files.deep_view(),
            location_is_file@,
        ),
{
    let ghost dv = diagnostics.deep_view();
    let ghost fl = location_is_file@;
    let mut r: Vec<Diagnostic> = Vec::new();
    assert(r.deep_view() =~= severities_applied(config.deep_view(), dv.take(0), project_files.deep_view(), fl.take(0)));
    let mut i: usize = 0;
    while i < diagnostics.len()
        invariant
            i <= dv.len(),
            dv == diagnostics.deep_view(),
            dv.len() == diagnostics@.len(),
            fl == location_is_file@,
            fl.len() == dv.len(),
            config.wf(),
            r.deep_view() == severities_applied(
                config.deep_view(),
                dv.take(i as int),
                project_files.deep_view(),
                fl.take(i as int),
            ),
        decreases diagnostics.len() - i,
    {
        assert(dv.take(i + 1).drop_last() =~= dv.take(i as int));
        assert(fl.take(i + 1).drop_last() =~= fl.take(i as int));
        assert(dv.take(i + 1).last() == diagnostics@[i as int].deep_view());
        assert(fl.take(i + 1).last() == location_is_file@[i as int]);
        let d = &diagnostics[i];
        let s = config.severity_for_location(
            d.rule_name.as_str(),
            d.location.path.as_str(),
            project_files,
            location_is_file[i],
        );
        if s != Severity::Off {
            let mut copy = d.duplicate();
            copy.severity = s;
            let ghost b = r.deep_view();
            r.push(copy);
            assert(r.deep_view() =~= b.push(with_severity(dv[i as int], s)));
        }
        i = i + 1;
    }
    assert(dv.take(dv.len() as int) =~= dv);
    assert(fl.take(fl.len() as int) =~= fl);
    r
}

/// The diagnostics that have no fix, in order.
pub open spec fn without_fixes(ds: Seq<DiagnosticView>) -> Seq<DiagnosticView>
    decreases ds.len(),
{
    if ds.len() == 0 {
        Seq::empty()
    } else if ds.last().fixes.len() == 0 {
        without_fixes(ds.drop_last()).push(ds.last())
    } else {
        without_fixes(ds.drop_last())
    }
}

/// A fix to apply, with the rule and the location of its diagnostic.
pub type FixStepView = (FixView, Seq<char>, Seq<char>);

pub open spec fn steps_of(d: DiagnosticView) -> Seq<FixStepView> {
    d.fixes.map_values(|f: FixView| (f, d.rule_name, d.location.path))
}

/// Every fix of every diagnostic, in order.
pub open spec fn fix_steps(ds: Seq<DiagnosticView>) -> Seq<FixStepView>
    decreases ds.len(),
{
    if ds.len() == 0 {
        Seq::empty()
    } else {
        fix_steps(ds.drop_last()) + steps_of(ds.last())
    }
}

/// What fixing a list of diagnostics does: the fixes to apply, in order,
/// each with its diagnostic's rule and location, and the diagnostics that
/// remain because they have no fix.
pub fn plan_fixes(diagnostics: &Vec<Diagnostic>) -> (r: (Vec<Diagnostic>, Vec<(Fix, String, String)>))
    ensures
        r.0.deep_view() == without_fixes(diagnostics.deep_view()),
        r.1.deep_view() == fix_steps(diagnostics.deep_view()),
{
    let ghost dv = diagnostics.deep_view();
    let mut remaining: Vec<Diagnostic> = Vec::new();
    let mut steps: Vec<(Fix, String, String)> = Vec::new();
    assert(remaining.deep_view() =~= without_fixes(dv.take(0)));
    assert(steps.deep_view() =~= fix_steps(dv.take(0)));
    let mut i: usize = 0;
    while i < diagnostics.len()
        invariant
            i <= dv.len(),
            dv == diagnostics.deep_view(),
            dv.len() == diagnostics@.len(),
            remaining.deep_view() == without_fixes(dv.take(i as int)),
            steps.deep_view() == fix_steps(dv.take(i as int)),
        decreases diagnostics.len() - i,
    {
        assert(dv.take(i + 1).drop_last() =~= dv.take(i as int));
        assert(dv.take(i + 1).last() == diagnostics@[i as int].deep_view());
        let d = &diagnostics[i];
        let ghost dd = dv[i as int];
        if d.fixes.len() == 0 {
            let ghost b = remaining.deep_view();
            remaining.push(d.duplicate());
            assert(remaining.deep_view() =~= b.push(dd));
        } else {
            let fixes = duplicate_fixes(&d.fixes);
            let ghost start = steps.deep_view();
            let mut k: usize = 0;
            while k < fixes.len()
                invariant
                    k <= fixes@.len(),
                    fixes.deep_view() == dd.fixes,
                    dd.rule_name == d.rule_name@,
                    dd.location.path == d.location.path@,
                    steps.deep_view() == start + steps_of(dd).take(k as int),
                decreases fixes.len() - k,
            {
                let ghost b = steps.deep_view();
                steps.push((fixes[k].duplicate(), d.rule_name.clone(), d.location.path.clone()));
                assert(steps_of(dd)[k as int] == (dd.fixes[k as int], dd.rule_name, dd.location.path));
                assert(steps.deep_view() =~= b.push(steps_of(dd)[k as int]));
                assert(steps_of(dd).take(k + 1) =~= steps_of(dd).take(k as int).push(steps_of(dd)[k as int]));
                k = k + 1;
            }
            assert(steps_of(dd).take(fixes@.len() as int) =~= steps_of(dd));
        }
        i = i + 1;
    }
    assert(dv.take(dv.len() as int) =~= dv);
    (remaining, steps)
}

/// Where a rename fix moves `path`: `new_name` beside it.
pub open spec fn spec_rename_destination(path: Seq<char>, new_name: Seq<char>) -> Seq<char> {
    let dir = match crate::path_utils::spec_parent(path) {
        Some(d) => d,
        None => "."@,
    };
    crate::config::join_path(dir, new_name)
}

pub fn rename_destination(path: &str, new_name: &str) -> (r: String)
    ensures
        r@ == spec_rename_destination(path@, new_name@),
{
    let dir = match crate::path_utils::parent(path) {
        Some(d) => d,
        None => ".".to_owned(),
    };
    crate::config::join_path_exec(dir.as_str(), new_name)
}

/// What a lint run is given besides the folder: the configuration.
#[derive(Debug)]
pub struct LintOptions<'a> {
    pub config: &'a Config,
}

/// The outcome of a lint run.
#[derive(Debug)]
pub struct LintResult {
    pub diagnostics: Vec<Diagnostic>,
    pub files_scanned: usize,
    pub elapsed: std::time::Duration,
}


proof fn lemma_diag_path_order(a: Seq<char>, b: Seq<char>, c: Seq<char>)
    ensures
        !diag_path_lt(a, a),
        diag_path_lt(a, b) ==> !diag_path_lt(b, a),
        a != b ==> diag_path_lt(a, b) || diag_path_lt(b, a),
        diag_path_lt(a, b) && diag_path_lt(b, c) ==> diag_path_lt(a, c),
{
    lemma_lex_irreflexive(lowercase(a), false);
    lemma_lex_irreflexive(a, true);
    lemma_lex_asymmetric(lowercase(a), lowercase(b), false);
    lemma_lex_asymmetric(a, b, true);
    lemma_lex_total(lowercase(a), lowercase(b), false);
    lemma_lex_total(a, b, true);
    if str_lt(lowercase(a), lowercase(b)) && str_lt(lowercase(b), lowercase(c)) {
        lemma_lex_transitive(lowercase(a), lowercase(b), lowercase(c), false);
    }
    if path_lt(a, b) && path_lt(b, c) {
        lemma_lex_transitive(a, b, c, true);
    }
}

/// Whether the diagnostics are in path order.
pub open spec fn path_sorted(s: Seq<DiagnosticView>) -> bool {
    forall|i: int, j: int| 0 <= i < j < s.len() ==> !diag_before(#[trigger] s[j], #[trigger] s[i])
}

proof fn lemma_insert_by_path_elements(s: Seq<DiagnosticView>, d: DiagnosticView)
    ensures
        insert_by_path(s, d).len() == s.len() + 1,
        forall|x: DiagnosticView| #[trigger] insert_by_path(s, d).contains(x) ==> s.contains(x) || x == d,
        insert_by_path(s, d).to_multiset() =~= s.to_multiset().insert(d),
    decreases s.len(),
{
    broadcast use vstd::seq_lib::group_to_multiset_ensures;
    broadcast use vstd::multiset::group_multiset_axioms;
    if s.len() == 0 {
        assert(insert_by_path(s, d) == seq![d]);
        assert(seq![d] =~= Seq::<DiagnosticView>::empty().push(d));
        assert forall|x: DiagnosticView| #[trigger] insert_by_path(s, d).contains(x) implies s.contains(x) || x == d by {
            assert(seq![d][0] == d);
        }
    } else if diag_before(d, s.last()) {
        let t = s.drop_last();
        lemma_insert_by_path_elements(t, d);
        let r = insert_by_path(t, d);
        assert(insert_by_path(s, d) == r.push(s.last()));
        assert(s =~= t.push(s.last()));
        assert forall|x: DiagnosticView| #[trigger] insert_by_path(s, d).contains(x) implies s.contains(x) || x == d by {
            let i = choose|i: int| 0 <= i < r.len() + 1 && r.push(s.last())[i] == x;
            if i < r.len() {
                assert(r[i] == x);
                assert(r.contains(x));
                if t.contains(x) {
                    let j = choose|j: int| 0 <= j < t.len() && t[j] == x;
                    assert(s[j] == x);
                }
            } else {
                assert(s[s.len() - 1] == x);
            }
        }
    } else {
        assert(insert_by_path(s, d) == s.push(d));
        assert forall|x: DiagnosticView| #[trigger] insert_by_path(s, d).contains(x) implies s.contains(x) || x == d by {
            let i = choose|i: int| 0 <= i < s.len() + 1 && s.push(d)[i] == x;
            if i < s.len() {
                assert(s[i] == x);
            }
        }
    }
}

proof fn lemma_insert_by_path_sorted(s: Seq<DiagnosticView>, d: DiagnosticView)
    requires
        path_sorted(s),
    ensures
        path_sorted(insert_by_path(s, d)),
    decreases s.len(),
{
    if s.len() == 0 {
        assert(insert_by_path(s, d) == seq![d]);
    } else if diag_before(d, s.last()) {
        let t = s.drop_last();
        assert forall|i: int, j: int| 0 <= i < j < t.len() implies !diag_before(#[trigger] t[j], #[trigger] t[i]) by {
            assert(t[i] == s[i] && t[j] == s[j]);
        }
        lemma_insert_by_path_sorted(t, d);
        lemma_insert_by_path_elements(t, d);
        let r = insert_by_path(t, d);
        let last = s.last();
        assert(insert_by_path(s, d) == r.push(last));
        assert forall|i: int| 0 <= i < r.len() implies !diag_before(last, #[trigger] r[i]) by {
            assert(r.contains(r[i]));
            if r[i] == d {
                lemma_diag_path_order(d.location.path, last.location.path, last.location.path);
            } else {
                assert(t.contains(r[i]));
                let k = choose|k: int| 0 <= k < t.len() && t[k] == r[i];
                assert(s[k] == r[i]);
                assert(!diag_before(s[s.len() - 1], s[k]));
            }
        }
        let q = r.push(last);
        assert forall|i: int, j: int| 0 <= i < j < q.len() implies !diag_before(#[trigger] q[j], #[trigger] q[i]) by {
            if j < r.len() {
                assert(q[i] == r[i] && q[j] == r[j]);
            } else {
                assert(q[j] == last);
                assert(q[i] == r[i]);
            }
        }
    } else {
        let last = s.last();
        assert(insert_by_path(s, d) == s.push(d));
        let q = s.push(d);
        assert forall|i: int, j: int| 0 <= i < j < q.len() implies !diag_before(#[trigger] q[j], #[trigger] q[i]) by {
            if j < s.len() {
                assert(q[i] == s[i] && q[j] == s[j]);
            } else {
                assert(q[j] == d);
                assert(q[i] == s[i]);
                if i < s.len() - 1 {
                    assert(!diag_before(s[s.len() - 1], s[i]));
                    lemma_diag_path_order(d.location.path, last.location.path, s[i].location.path);
                    lemma_diag_path_order(last.location.path, d.location.path, s[i].location.path);
                    lemma_diag_path_order(d.location.path, s[i].location.path, last.location.path);
                    lemma_diag_path_order(s[i].location.path, last.location.path, d.location.path);
                    lemma_diag_path_order(last.location.path, s[i].location.path, d.location.path);
                }
            }
        }
    }
}

/// Each rule's diagnostics come out in path order, and sorting neither
/// loses nor adds a diagnostic: the result is a permutation of the input.
pub proof fn lemma_sort_by_path(ds: Seq<DiagnosticView>)
    ensures
        path_sorted(sort_by_path(ds)),
        sort_by_path(ds).to_multiset() =~= ds.to_multiset(),
    decreases ds.len(),
{
    broadcast use vstd::seq_lib::group_to_multiset_ensures;
    if ds.len() == 0 {
        assert(sort_by_path(ds) =~= ds);
    } else {
        let t = ds.drop_last();
        lemma_sort_by_path(t);
        lemma_insert_by_path_sorted(sort_by_path(t), ds.last());
        lemma_insert_by_path_elements(sort_by_path(t), ds.last());
        assert(ds =~= t.push(ds.last()));
    }
}

/// The diagnostics of `ds` located at `q`, in their order.
pub open spec fn at_path(ds: Seq<DiagnosticView>, q: Seq<char>) -> Seq<DiagnosticView>
    decreases ds.len(),
{
    if ds.len() == 0 {
        Seq::empty()
    } else {
        let r = at_path(ds.drop_last(), q);
        if ds.last().location.path == q {
            r.push(ds.last())
        } else {
            r
        }
    }
}

proof fn lemma_insert_at_path(s: Seq<DiagnosticView>, d: DiagnosticView, q: Seq<char>)
    ensures
        at_path(insert_by_path(s, d), q) == (if d.location.path == q {
            at_path(s, q).push(d)
        } else {
            at_path(s, q)
        }),
    decreases s.len(),
{
    if s.len() == 0 {
        assert(insert_by_path(s, d) == seq![d]);
        let e = Seq::<DiagnosticView>::empty();
        assert(seq![d].drop_last() =~= e);
        assert(seq![d].last() == d);
        assert(at_path(e, q) == e);
        assert(at_path(s, q) == e);
        assert(e.push(d) =~= seq![d]);
    } else if diag_before(d, s.last()) {
        let t = s.drop_last();
        let last = s.last();
        lemma_insert_at_path(t, d, q);
        lemma_diag_path_order(d.location.path, last.location.path, last.location.path);
        let r = insert_by_path(t, d);
        assert(insert_by_path(s, d) == r.push(last));
        assert(r.push(last).drop_last() =~= r);
    } else {
        assert(insert_by_path(s, d) == s.push(d));
        assert(s.push(d).drop_last() =~= s);
    }
}

/// The sort is stable: the diagnostics at any one path come out in the
/// order in which they went in.
pub proof fn lemma_sort_by_path_stable(ds: Seq<DiagnosticView>, q: Seq<char>)
    ensures
        at_path(sort_by_path(ds), q) == at_path(ds, q),
    decreases ds.len(),
{
    if ds.len() > 0 {
        lemma_sort_by_path_stable(ds.drop_last(), q);
        lemma_insert_at_path(sort_by_path(ds.drop_last()), ds.last(), q);
    }
}

/// No diagnostic that comes out has severity `Off`, and each has the
/// severity that the configuration gives its rule at its location.
pub proof fn lemma_applied_severities(c: ConfigView, ds: Seq<DiagnosticView>, files: Seq<Seq<char>>, is_file: Seq<bool>)
    requires
        is_file.len() == ds.len(),
    ensures
        forall|i: int| 0 <= i < severities_applied(c, ds, files, is_file).len() ==> (#[trigger] severities_applied(c, ds, files, is_file)[i]).severity != Severity::Off,
        severities_applied(c, ds, files, is_file).len() <= ds.len(),
    decreases ds.len(),
{
    if ds.len() > 0 {
        lemma_applied_severities(c, ds.drop_last(), files, is_file.drop_last());
        let rest = severities_applied(c, ds.drop_last(), files, is_file.drop_last());
        let r = severities_applied(c, ds, files, is_file);
        assert forall|i: int| 0 <= i < r.len() implies (#[trigger] r[i]).severity != Severity::Off by {
            if i < rest.len() {
                assert(r[i] == rest[i]);
            }
        }
    }
}

proof fn lemma_kept_none(c: ConfigView, rule: Seq<char>, files: Seq<Seq<char>>)
    requires
        forall|i: int| 0 <= i < files.len() ==> spec_severity_for_file(c, rule, #[trigger] files[i]) == Severity::Off,
    ensures
        kept_files(c, rule, files).len() == 0,
    decreases files.len(),
{
    if files.len() > 0 {
        let t = files.drop_last();
        assert forall|i: int| 0 <= i < t.len() implies spec_severity_for_file(c, rule, #[trigger] t[i]) == Severity::Off by {
            assert(t[i] == files[i]);
        }
        lemma_kept_none(c, rule, t);
        assert(files[files.len() - 1] == files.last());
    }
}

/// A rule runs on exactly the files for which the configuration does not
/// turn it off: a file where it is off is left out of that rule's project
/// (and so of its source index and of every count it makes), and every other
/// file stays.
pub proof fn lemma_kept_files(c: ConfigView, rule: Seq<char>, files: Seq<Seq<char>>, f: Seq<char>)
    ensures
        kept_files(c, rule, files).contains(f) <==> files.contains(f) && spec_severity_for_file(c, rule, f)
            != Severity::Off,
    decreases files.len(),
{
    if files.len() > 0 {
        let t = files.drop_last();
        let last = files.last();
        lemma_kept_files(c, rule, t, f);
        let rest = kept_files(c, rule, t);
        assert(files.contains(f) <==> t.contains(f) || f == last) by {
            if files.contains(f) {
                let i = choose|i: int| 0 <= i < files.len() && files[i] == f;
                if i < t.len() {
                    assert(t[i] == f);
                }
            }
            if t.contains(f) {
                let i = choose|i: int| 0 <= i < t.len() && t[i] == f;
                assert(files[i] == f);
            }
            if f == last {
                assert(files[files.len() - 1] == f);
            }
        }
        if spec_severity_for_file(c, rule, last) != Severity::Off {
            let r = rest.push(last);
            assert(r.contains(f) <==> rest.contains(f) || f == last) by {
                if r.contains(f) {
                    let i = choose|i: int| 0 <= i < r.len() && r[i] == f;
                    if i < rest.len() {
                        assert(rest[i] == f);
                    }
                }
                if rest.contains(f) {
                    let i = choose|i: int| 0 <= i < rest.len() && rest[i] == f;
                    assert(r[i] == f);
                }
                if f == last {
                    assert(r[rest.len() as int] == f);
                }
            }
        }
    }
}

/// A rule that the configuration turns off for every file of a project
/// with files reports nothing.
pub proof fn lemma_rule_off_everywhere(c: ConfigView, rule: Seq<char>, p: ProjectView, g: ImportGraphView, forms: PluralForms)
    requires
        p.files.len() > 0,
        forall|i: int| 0 <= i < p.files.len() ==> spec_severity_for_file(c, rule, #[trigger] p.files[i]) == Severity::Off,
    ensures
        rule_diagnostics(c, rule, p, g, forms) == Seq::<DiagnosticView>::empty(),
{
    lemma_kept_none(c, rule, p.files);
}

/// The split import rules are built in but disabled by default: under the
/// recommended preset they report nothing on a project with files.
pub proof fn lemma_split_rules_off_by_default(rule: Seq<char>, p: ProjectView, g: ImportGraphView, forms: PluralForms)
    requires
        rule == crate::rules::NO_CROSS_IMPORTS@ || rule == crate::rules::NO_HIGHER_LEVEL_IMPORTS@ || rule
            == crate::rules::IMPORT_LOCALITY@,
        p.files.len() > 0,
    ensures
        rule_diagnostics(crate::config::spec_recommended(), rule, p, g, forms) == Seq::<DiagnosticView>::empty(),
{
    crate::rules::lemma_split_rules_not_recommended(rule);
    assert forall|i: int| 0 <= i < p.files.len() implies spec_severity_for_file(
        crate::config::spec_recommended(),
        rule,
        #[trigger] p.files[i],
    ) == Severity::Off by {
        crate::config::lemma_recommended_severity(rule, p.files[i]);
    }
    lemma_rule_off_everywhere(crate::config::spec_recommended(), rule, p, g, forms);
}

} // verus!
