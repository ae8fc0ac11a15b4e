//! The built-in rules: their names, the recommended preset, and dispatch.
use vstd::prelude::*;
use crate::order::text_eq;
use crate::diagnostic::{Diagnostic, DiagnosticView};
use crate::fsd::{IndexView, Project, ProjectView};
use crate::imports::ImportGraphView;
use crate::rules::import_rules::{spec_import_rule, ImportAnalysis};
use crate::rules::structural::{spec_structural_rule, PluralForms};

pub mod structural;
pub mod import_rules;

verus! {

pub const AMBIGUOUS_SLICE_NAMES: &'static str = "fsd/ambiguous-slice-names";
pub const EXCESSIVE_SLICING: &'static str = "fsd/excessive-slicing";
pub const FORBIDDEN_IMPORTS: &'static str = "fsd/forbidden-imports";
pub const IMPORT_LOCALITY: &'static str = "fsd/import-locality";
pub const INCONSISTENT_NAMING: &'static str = "fsd/inconsistent-naming";
pub const INSIGNIFICANT_SLICE: &'static str = "fsd/insignificant-slice";
pub const NO_CROSS_IMPORTS: &'static str = "fsd/no-cross-imports";
pub const NO_HIGHER_LEVEL_IMPORTS: &'static str = "fsd/no-higher-level-imports";
pub const NO_LAYER_PUBLIC_API: &'static str = "fsd/no-layer-public-api";
pub const NO_PROCESSES: &'static str = "fsd/no-processes";
pub const NO_PUBLIC_API_SIDESTEP: &'static str = "fsd/no-public-api-sidestep";
pub const NO_RESERVED_FOLDER_NAMES: &'static str = "fsd/no-reserved-folder-names";
pub const NO_SEGMENTLESS_SLICES: &'static str = "fsd/no-segmentless-slices";
pub const NO_SEGMENTS_ON_SLICED_LAYERS: &'static str = "fsd/no-segments-on-sliced-layers";
pub const NO_UI_IN_APP: &'static str = "fsd/no-ui-in-app";
pub const PUBLIC_API: &'static str = "fsd/public-api";
pub const REPETITIVE_NAMING: &'static str = "fsd/repetitive-naming";
pub const SEGMENTS_BY_PURPOSE: &'static str = "fsd/segments-by-purpose";
pub const SHARED_LIB_GROUPING: &'static str = "fsd/shared-lib-grouping";
pub const TYPO_IN_LAYER_NAME: &'static str = "fsd/typo-in-layer-name";

/// The rules of the recommended preset, in listing order.
pub open spec fn spec_recommended_rules() -> Seq<Seq<char>> {
    seq![
        AMBIGUOUS_SLICE_NAMES@,
        EXCESSIVE_SLICING@,
        FORBIDDEN_IMPORTS@,
        INCONSISTENT_NAMING@,
        INSIGNIFICANT_SLICE@,
        NO_LAYER_PUBLIC_API@,
        NO_PUBLIC_API_SIDESTEP@,
        NO_RESERVED_FOLDER_NAMES@,
        NO_SEGMENTLESS_SLICES@,
        NO_SEGMENTS_ON_SLICED_LAYERS@,
        NO_UI_IN_APP@,
        PUBLIC_API@,
        REPETITIVE_NAMING@,
        SEGMENTS_BY_PURPOSE@,
        SHARED_LIB_GROUPING@,
        TYPO_IN_LAYER_NAME@,
        NO_PROCESSES@,
    ]
}

/// Every built-in rule: the recommended ones, then the three split import rules.
pub open spec fn spec_all_rules() -> Seq<Seq<char>> {
    spec_recommended_rules() + seq![NO_CROSS_IMPORTS@, NO_HIGHER_LEVEL_IMPORTS@, IMPORT_LOCALITY@]
}

pub open spec fn strs_view(v: Seq<&'static str>) -> Seq<Seq<char>> {
    v.map_values(|s: &'static str| s@)
}

/// The rules of the recommended preset.
pub fn recommended_rules() -> (r: Vec<&'static str>)
    ensures
        strs_view(r@) == spec_recommended_rules(),
{
    let r = vec![
        AMBIGUOUS_SLICE_NAMES,
        EXCESSIVE_SLICING,
        FORBIDDEN_IMPORTS,
        INCONSISTENT_NAMING,
        INSIGNIFICANT_SLICE,
        NO_LAYER_PUBLIC_API,
        NO_PUBLIC_API_SIDESTEP,
        NO_RESERVED_FOLDER_NAMES,
        NO_SEGMENTLESS_SLICES,
        NO_SEGMENTS_ON_SLICED_LAYERS,
        NO_UI_IN_APP,
        PUBLIC_API,
        REPETITIVE_NAMING,
        SEGMENTS_BY_PURPOSE,
        SHARED_LIB_GROUPING,
        TYPO_IN_LAYER_NAME,
        NO_PROCESSES,
    ];
    assert(strs_view(r@) =~= spec_recommended_rules());
    r
}

/// Every built-in rule.
pub fn all_rules() -> (r: Vec<&'static str>)
    ensures
        strs_view(r@) == spec_all_rules(),
{
    let mut r = recommended_rules();
    r.push(NO_CROSS_IMPORTS);
    r.push(NO_HIGHER_LEVEL_IMPORTS);
    r.push(IMPORT_LOCALITY);
    assert(strs_view(r@) =~= spec_all_rules());
    r
}

/// The rules that read the import graph.
pub open spec fn spec_is_import_rule(rule: Seq<char>) -> bool {
    rule == FORBIDDEN_IMPORTS@ || rule == IMPORT_LOCALITY@ || rule == INSIGNIFICANT_SLICE@ || rule
        == NO_CROSS_IMPORTS@ || rule == NO_HIGHER_LEVEL_IMPORTS@ || rule == NO_PUBLIC_API_SIDESTEP@
}

pub fn is_import_rule(rule: &str) -> (r: bool)
    ensures
        r == spec_is_import_rule(rule@),
{
    text_eq(rule, FORBIDDEN_IMPORTS) || text_eq(rule, IMPORT_LOCALITY) || text_eq(
        rule,
        INSIGNIFICANT_SLICE,
    ) || text_eq(rule, NO_CROSS_IMPORTS) || text_eq(rule, NO_HIGHER_LEVEL_IMPORTS) || text_eq(
        rule,
        NO_PUBLIC_API_SIDESTEP,
    )
}


/// What the rule named `rule` reports of the project `p`, whose import graph
/// is `g` and whose source index is `index`, with the plural and singular
/// forms of names that `forms` lists.
pub open spec fn spec_run_rule(rule: Seq<char>, p: ProjectView, g: ImportGraphView, index: IndexView, forms: PluralForms) -> Seq<DiagnosticView> {
    if spec_is_import_rule(rule) {
        spec_import_rule(rule, p, g, index)
    } else {
        spec_structural_rule(rule, p, forms)
    }
}

/// Runs the rule named `rule`: an import rule on the import analysis, any
/// other on the folder structure.
pub fn run_rule(
    rule: &str,
    project: &Project,
    analysis: &ImportAnalysis,
    forms: &Vec<(String, String, String)>,
) -> (r: Vec<Diagnostic>)
    requires
        project.wf(),
        analysis.wf(),
    ensures
        r.deep_view() == spec_run_rule(
            rule@,
            project.deep_view(),
            analysis.graph.deep_view(),
            analysis.index.deep_view(),
            forms.deep_view(),
        ),
{
    if is_import_rule(rule) {
        import_rules::run_rule(rule, project, analysis)
    } else {
        structural::run_rule(rule, project, forms)
    }
}


/// The split import rules are not in the recommended preset.
pub proof fn lemma_split_rules_not_recommended(rule: Seq<char>)
    requires
        rule == NO_CROSS_IMPORTS@ || rule == NO_HIGHER_LEVEL_IMPORTS@ || rule == IMPORT_LOCALITY@,
    ensures
        !spec_recommended_rules().contains(rule),
{
    reveal_strlit("fsd/ambiguous-slice-names");
    reveal_strlit("fsd/excessive-slicing");
    reveal_strlit("fsd/forbidden-imports");
    reveal_strlit("fsd/import-locality");
    reveal_strlit("fsd/inconsistent-naming");
    reveal_strlit("fsd/insignificant-slice");
    reveal_strlit("fsd/no-cross-imports");
    reveal_strlit("fsd/no-higher-level-imports");
    reveal_strlit("fsd/no-layer-public-api");
    reveal_strlit("fsd/no-processes");
    reveal_strlit("fsd/no-public-api-sidestep");
    reveal_strlit("fsd/no-reserved-folder-names");
    reveal_strlit("fsd/no-segmentless-slices");
    reveal_strlit("fsd/no-segments-on-sliced-layers");
    reveal_strlit("fsd/no-ui-in-app");
    reveal_strlit("fsd/public-api");
    reveal_strlit("fsd/repetitive-naming");
    reveal_strlit("fsd/segments-by-purpose");
    reveal_strlit("fsd/shared-lib-grouping");
    reveal_strlit("fsd/typo-in-layer-name");
    let rs = spec_recommended_rules();
    assert forall|i: int| 0 <= i < rs.len() implies #[trigger] rs[i] != rule by {
        assert(rs[i].len() != rule.len() || rs[i][5] != rule[5] || rs[i][6] != rule[6] || rs[i][7] != rule[7]
            || rs[i][8] != rule[8] || rs[i][9] != rule[9] || rs[i][10] != rule[10]);
    }
}


/// Every recommended rule is a built-in rule.
pub proof fn lemma_recommended_are_built_in(rule: Seq<char>)
    ensures
        spec_recommended_rules().contains(rule) ==> spec_all_rules().contains(rule),
{
    if spec_recommended_rules().contains(rule) {
        let i = choose|i: int| 0 <= i < spec_recommended_rules().len() && spec_recommended_rules()[i] == rule;
        assert(spec_all_rules()[i] == rule);
    }
}

/// A name that is not a built-in rule reports nothing.
pub proof fn lemma_unknown_rule_reports_nothing(
    rule: Seq<char>,
    p: ProjectView,
    g: ImportGraphView,
    index: IndexView,
    forms: PluralForms,
)
    requires
        !spec_all_rules().contains(rule),
    ensures
        spec_run_rule(rule, p, g, index, forms) == Seq::<DiagnosticView>::empty(),
{
    let all = spec_all_rules();
    assert(all[0] == AMBIGUOUS_SLICE_NAMES@);
    assert(all[1] == EXCESSIVE_SLICING@);
    assert(all[2] == FORBIDDEN_IMPORTS@);
    assert(all[3] == INCONSISTENT_NAMING@);
    assert(all[4] == INSIGNIFICANT_SLICE@);
    assert(all[5] == NO_LAYER_PUBLIC_API@);
    assert(all[6] == NO_PUBLIC_API_SIDESTEP@);
    assert(all[7] == NO_RESERVED_FOLDER_NAMES@);
    assert(all[8] == NO_SEGMENTLESS_SLICES@);
    assert(all[9] == NO_SEGMENTS_ON_SLICED_LAYERS@);
    assert(all[10] == NO_UI_IN_APP@);
    assert(all[11] == PUBLIC_API@);
    assert(all[12] == REPETITIVE_NAMING@);
    assert(all[13] == SEGMENTS_BY_PURPOSE@);
    assert(all[14] == SHARED_LIB_GROUPING@);
    assert(all[15] == TYPO_IN_LAYER_NAME@);
    assert(all[16] == NO_PROCESSES@);
    assert(all[17] == NO_CROSS_IMPORTS@);
    assert(all[18] == NO_HIGHER_LEVEL_IMPORTS@);
    assert(all[19] == IMPORT_LOCALITY@);
    assert forall|i: int| 0 <= i < all.len() implies #[trigger] all[i] != rule by {}
}

} // verus!
