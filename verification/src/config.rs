//! Configuration: which rules run, how severe they are, and for which files.
//! A configuration is a list of rule groups; for a file, the last group that
//! configures a rule and matches the file decides the rule's severity.
use vstd::prelude::*;
use crate::diagnostic::{Severity, severity_rank};
use crate::order::{lemma_assoc_get_put, assoc_find, assoc_get, assoc_insert, assoc_put, text_eq};
use crate::path_utils::{ancestors, spec_ancestors, chars_have_prefix, forward_slashes, has_prefix, parent, slashes_forward, spec_parent, spec_starts_with};
use crate::rules::{all_rules, spec_all_rules};
use crate::text::{chars_of, push_char, push_text, string_of_range};
use crate::rules::{recommended_rules, spec_recommended_rules, strs_view};

verus! {

/// The longest pattern, in characters, that is handed to `globset`. A
/// pattern's literal parts become automaton states inside `globset`, and
/// their number must stay below `i32::MAX`; this bound keeps every pattern's
/// bytes far below it.
pub const MAX_GLOB_CHARS: usize = 0x1000_0000;

/// Whether `globset` accepts `glob` as a pattern, with `*` kept from matching
/// `/` and with `\` taken literally, and compiles it into a one-pattern
/// `GlobSet`.
pub uninterp spec fn glob_accepted(glob: Seq<char>) -> bool;

/// Whether `path` matches the one-pattern `GlobSet` compiled from `glob`.
pub uninterp spec fn glob_matches(glob: Seq<char>, path: Seq<char>) -> bool;

/// A pattern as the configuration keeps it: not too long, and accepted.
pub open spec fn pattern_usable(glob: Seq<char>) -> bool {
    glob.len() <= MAX_GLOB_CHARS && glob_accepted(glob)
}

/// `globset::GlobBuilder::build` with `literal_separator(true)` and
/// `backslash_escape(false)`, then `GlobSetBuilder::build` on that one glob:
/// the claim is only that whether both succeed is a function of the
/// pattern's text. Both calls return their failures as errors; the only
/// panics on their path are automaton-size `unwrap`s in `GlobSet::new`,
/// which the length bound keeps out of reach.
#[verifier::external_body]
fn glob_builds(glob: &str) -> (r: bool)
    requires
        glob@.len() <= MAX_GLOB_CHARS,
    ensures
        r == glob_accepted(glob@),
{
    match globset::GlobBuilder::new(glob).literal_separator(true).backslash_escape(false).build() {
        Ok(g) => globset::GlobSetBuilder::new().add(g).build().is_ok(),
        Err(_) => false,
    }
}

/// `globset::GlobSet::is_match` on the one-pattern set built as in
/// `glob_builds`: the claim is only that the answer is a function of the
/// pattern's text and the path's. Building cannot fail for an accepted
/// pattern, so the `false` of the error arms is never reached.
#[verifier::external_body]
fn glob_is_match(glob: &str, path: &str) -> (r: bool)
    requires
        pattern_usable(glob@),
    ensures
        r == glob_matches(glob@, path@),
{
    match globset::GlobBuilder::new(glob).literal_separator(true).backslash_escape(false).build() {
        Ok(g) => match globset::GlobSetBuilder::new().add(g).build() {
            Ok(set) => set.is_match(path),
            Err(_) => false,
        },
        Err(_) => false,
    }
}

/// A compiled path pattern: an absolute glob, and whether it was written
/// with a leading `!`.
#[derive(Debug)]
pub struct Pattern {
    pub negated: bool,
    pub glob: String,
}

pub struct PatternView {
    pub negated: bool,
    pub glob: Seq<char>,
}

impl DeepView for Pattern {
    type V = PatternView;

    open spec fn deep_view(&self) -> PatternView {
        PatternView { negated: self.negated, glob: self.glob@ }
    }
}

/// A group of rule settings: the files it applies to (all files when
/// `files` is `None`), the files it leaves out, and the severity of each
/// rule it configures, by rule name.
#[derive(Debug)]
pub struct RuleGroup {
    pub files: Option<Vec<Pattern>>,
    pub ignores: Vec<Pattern>,
    pub rules: Vec<(String, Severity)>,
}

pub struct RuleGroupView {
    pub files: Option<Seq<PatternView>>,
    pub ignores: Seq<PatternView>,
    pub rules: Seq<(Seq<char>, Severity)>,
}

impl DeepView for RuleGroup {
    type V = RuleGroupView;

    open spec fn deep_view(&self) -> RuleGroupView {
        RuleGroupView {
            files: self.files.deep_view(),
            ignores: self.ignores.deep_view(),
            rules: self.rules.deep_view(),
        }
    }
}

/// A configuration: its rule groups in order, the patterns of the files
/// that are not linted at all, and the file it was read from.
#[derive(Debug)]
pub struct Config {
    pub groups: Vec<RuleGroup>,
    pub global_ignores: Vec<Pattern>,
    pub path: Option<String>,
}

pub struct ConfigView {
    pub groups: Seq<RuleGroupView>,
    pub global_ignores: Seq<PatternView>,
    pub path: Option<Seq<char>>,
}

impl DeepView for Config {
    type V = ConfigView;

    open spec fn deep_view(&self) -> ConfigView {
        ConfigView {
            groups: self.groups.deep_view(),
            global_ignores: self.global_ignores.deep_view(),
            path: self.path.deep_view(),
        }
    }
}

pub open spec fn patterns_accepted(ps: Seq<PatternView>) -> bool {
    forall|i: int| 0 <= i < ps.len() ==> pattern_usable(#[trigger] ps[i].glob)
}

pub open spec fn group_accepted(g: RuleGroupView) -> bool {
    &&& match g.files {
        Some(ps) => patterns_accepted(ps),
        None => true,
    }
    &&& patterns_accepted(g.ignores)
}

impl ConfigView {
    /// Every pattern of the configuration is one that `globset` accepts.
    pub open spec fn wf(self) -> bool {
        &&& forall|i: int| 0 <= i < self.groups.len() ==> group_accepted(#[trigger] self.groups[i])
        &&& patterns_accepted(self.global_ignores)
    }
}

impl Config {
    pub open spec fn wf(&self) -> bool {
        self.deep_view().wf()
    }
}

/// Whether some pattern of `ps` with the given negation matches `path`.
pub open spec fn some_match(ps: Seq<PatternView>, negated: bool, path: Seq<char>) -> bool {
    exists|i: int| 0 <= i < ps.len() && ps[i].negated == negated && #[trigger] glob_matches(ps[i].glob, path)
}

/// Whether `path` is left out by `ps`: a plain pattern matches it and no
/// negated one does.
pub open spec fn spec_matches_patterns(path: Seq<char>, ps: Seq<PatternView>) -> bool {
    some_match(ps, false, path) && !some_match(ps, true, path)
}

/// Whether a group applies to `path`: one of its file patterns (if it has
/// them) matches, and its ignores do not leave the path out.
pub open spec fn spec_group_matches(g: RuleGroupView, path: Seq<char>) -> bool {
    &&& match g.files {
        None => true,
        Some(ps) => exists|i: int| 0 <= i < ps.len() && #[trigger] glob_matches(ps[i].glob, path),
    }
    &&& !spec_matches_patterns(path, g.ignores)
}

/// The severity of `rule` for `path` under `groups`: that of the last group
/// that configures the rule and applies to the path, else `Off`.
pub open spec fn severity_in(groups: Seq<RuleGroupView>, rule: Seq<char>, path: Seq<char>) -> Severity
    decreases groups.len(),
{
    if groups.len() == 0 {
        Severity::Off
    } else {
        match assoc_get(groups.last().rules, rule) {
            Some(s) => if spec_group_matches(groups.last(), path) {
                s
            } else {
                severity_in(groups.drop_last(), rule, path)
            },
            None => severity_in(groups.drop_last(), rule, path),
        }
    }
}

pub open spec fn spec_severity_for_file(c: ConfigView, rule: Seq<char>, path: Seq<char>) -> Severity {
    severity_in(c.groups, rule, path)
}

/// The greatest severity of `rule` over the files of `files` at or below
/// `location`, if there is one.
pub open spec fn descendant_severity(c: ConfigView, rule: Seq<char>, files: Seq<Seq<char>>, location: Seq<char>) -> Option<Severity>
    decreases files.len(),
{
    if files.len() == 0 {
        None
    } else {
        let rest = descendant_severity(c, rule, files.drop_last(), location);
        if spec_starts_with(files.last(), location) {
            let s = spec_severity_for_file(c, rule, files.last());
            match rest {
                Some(m) => Some(if severity_rank(m) >= severity_rank(s) { m } else { s }),
                None => Some(s),
            }
        } else {
            rest
        }
    }
}

/// The severity of `rule` at a diagnostic's location: that of the location
/// itself when it is a file, else the greatest over the project files below
/// it, else that of the location itself.
pub open spec fn spec_severity_for_location(
    c: ConfigView,
    rule: Seq<char>,
    location: Seq<char>,
    files: Seq<Seq<char>>,
    location_is_file: bool,
) -> Severity {
    if files.contains(location) || location_is_file {
        spec_severity_for_file(c, rule, location)
    } else {
        match descendant_severity(c, rule, files, location) {
            Some(s) => s,
            None => spec_severity_for_file(c, rule, location),
        }
    }
}

/// The recommended preset: every recommended rule at `Error`, for all files.
pub open spec fn recommended_rules_map(names: Seq<Seq<char>>) -> Seq<(Seq<char>, Severity)>
    decreases names.len(),
{
    if names.len() == 0 {
        Seq::empty()
    } else {
        assoc_put(recommended_rules_map(names.drop_last()), names.last(), Severity::Error, false)
    }
}

pub open spec fn recommended_group() -> RuleGroupView {
    RuleGroupView { files: None, ignores: Seq::empty(), rules: recommended_rules_map(spec_recommended_rules()) }
}

pub open spec fn spec_recommended() -> ConfigView {
    ConfigView { groups: seq![recommended_group()], global_ignores: Seq::empty(), path: None }
}

fn any_pattern_matches(ps: &Vec<Pattern>, negated: Option<bool>, path: &str) -> (r: bool)
    requires
        patterns_accepted(ps.deep_view()),
    ensures
        r == (match negated {
            Some(n) => some_match(ps.deep_view(), n, path@),
            None => exists|i: int| 0 <= i < ps@.len() && #[trigger] glob_matches(ps.deep_view()[i].glob, path@),
        }),
{
    let ghost pv = ps.deep_view();
    let mut i: usize = 0;
    while i < ps.len()
        invariant
            i <= ps@.len(),
            pv == ps.deep_view(),
            patterns_accepted(pv),
            forall|j: int| 0 <= j < i ==> !(match negated {
                Some(n) => pv[j].negated == n,
                None => true,
            } && #[trigger] glob_matches(pv[j].glob, path@)),
        decreases ps.len() - i,
    {
        assert(pv[i as int] == ps@[i as int].deep_view());
        assert(pattern_usable(pv[i as int].glob));
        let wanted = match negated {
            Some(n) => ps[i].negated == n,
            None => true,
        };
        if wanted && glob_is_match(ps[i].glob.as_str(), path) {
            assert(glob_matches(pv[i as int].glob, path@));
            return true;
        }
        i = i + 1;
    }
    false
}

/// Whether `path` is left out by `patterns` (see `spec_matches_patterns`).
pub fn matches_patterns(path: &str, patterns: &Vec<Pattern>) -> (r: bool)
    requires
        patterns_accepted(patterns.deep_view()),
    ensures
        r == spec_matches_patterns(path@, patterns.deep_view()),
{
    let ignored = any_pattern_matches(patterns, Some(false), path);
    if ignored && any_pattern_matches(patterns, Some(true), path) {
        false
    } else {
        ignored
    }
}

impl RuleGroup {
    /// Whether this group applies to `path` (see `spec_group_matches`).
    pub fn matches(&self, path: &str) -> (r: bool)
        requires
            group_accepted(self.deep_view()),
        ensures
            r == spec_group_matches(self.deep_view(), path@),
    {
        let included = match &self.files {
            None => true,
            Some(ps) => ps.len() != 0 && any_pattern_matches(ps, None, path),
        };
        included && !matches_patterns(path, &self.ignores)
    }
}

fn recommended_map() -> (r: Vec<(String, Severity)>)
    ensures
        r.deep_view() == recommended_rules_map(spec_recommended_rules()),
{
    let names = recommended_rules();
    let ghost nv = strs_view(names@);
    let mut r: Vec<(String, Severity)> = Vec::new();
    assert(r.deep_view() =~= recommended_rules_map(nv.take(0)));
    let mut i: usize = 0;
    while i < names.len()
        invariant
            i <= names@.len(),
            nv == strs_view(names@),
            nv == spec_recommended_rules(),
            r.deep_view() == recommended_rules_map(nv.take(i as int)),
        decreases names.len() - i,
    {
        assert(nv.take(i + 1).drop_last() =~= nv.take(i as int));
        assert(nv.take(i + 1).last() == names@[i as int]@);
        assoc_insert(&mut r, names[i].to_owned(), Severity::Error, false);
        i = i + 1;
    }
    assert(nv.take(nv.len() as int) =~= nv);
    r
}

impl Config {
    /// The recommended preset.
    pub fn recommended() -> (r: Config)
        ensures
            r.deep_view() == spec_recommended(),
            r.wf(),
    {
        let rules = recommended_map();
        let group = RuleGroup { files: None, ignores: Vec::new(), rules };
        assert(group.ignores.deep_view() =~= Seq::<PatternView>::empty());
        assert(group.deep_view() == recommended_group());
        let r = Config { groups: vec![group], global_ignores: Vec::new(), path: None };
        assert(r.groups.deep_view() =~= seq![recommended_group()]);
        assert(r.global_ignores.deep_view() =~= Seq::<PatternView>::empty());
        r
    }

    /// Whether no file at `path` is linted.
    pub fn is_global_ignored(&self, path: &str) -> (r: bool)
        requires
            self.wf(),
        ensures
            r == spec_matches_patterns(path@, self.deep_view().global_ignores),
    {
        matches_patterns(path, &self.global_ignores)
    }

    /// The severity of `rule` for the file at `path`.
    pub fn severity_for_file(&self, rule: &str, path: &str) -> (r: Severity)
        requires
            self.wf(),
        ensures
            r == spec_severity_for_file(self.deep_view(), rule@, path@),
    {
        let ghost gv = self.groups.deep_view();
        let mut severity = Severity::Off;
        let mut i: usize = 0;
        while i < self.groups.len()
            invariant
                i <= gv.len(),
                gv == self.groups.deep_view(),
                gv.len() == self.groups@.len(),
                self.wf(),
                severity == severity_in(gv.take(i as int), rule@, path@),
            decreases self.groups.len() - i,
        {
            assert(gv.take(i + 1).drop_last() =~= gv.take(i as int));
            assert(gv.take(i + 1).last() == self.groups@[i as int].deep_view());
            assert(self.deep_view().groups == gv);
            assert(group_accepted(gv[i as int]));
            let group = &self.groups[i];
            match assoc_find(&group.rules, rule) {
                None => {},
                Some(k) => {
                    if group.matches(path) {
                        severity = group.rules[k].1;
                    }
                },
            }
            i = i + 1;
        }
        assert(gv.take(gv.len() as int) =~= gv);
        severity
    }

    /// The severity of `rule` for a diagnostic at `location`, given the
    /// project's files and whether the location is a file on disk.
    pub fn severity_for_location(
        &self,
        rule: &str,
        location: &str,
        project_files: &Vec<String>,
        location_is_file: bool,
    ) -> (r: Severity)
        requires
            self.wf(),
        ensures
            r == spec_severity_for_location(
                self.deep_view(),
                rule@,
                location@,
                project_files.deep_view(),
                location_is_file,
            ),
    {
        let ghost fv = project_files.deep_view();
        if location_is_file || crate::rules::structural::contains_text(project_files, location) {
            return self.severity_for_file(rule, location);
        }
        let mut best: Option<Severity> = None;
        let mut i: usize = 0;
        while i < project_files.len()
            invariant
                i <= fv.len(),
                fv == project_files.deep_view(),
                fv.len() == project_files@.len(),
                self.wf(),
                best == descendant_severity(self.deep_view(), rule@, fv.take(i as int), location@),
            decreases project_files.len() - i,
        {
            assert(fv.take(i + 1).drop_last() =~= fv.take(i as int));
            assert(fv.take(i + 1).last() == project_files@[i as int]@);
            if crate::path_utils::starts_with(project_files[i].as_str(), location) {
                let s = self.severity_for_file(rule, project_files[i].as_str());
                best = match best {
                    Some(m) => Some(m.max(s)),
                    None => Some(s),
                };
            }
            i = i + 1;
        }
        assert(fv.take(fv.len() as int) =~= fv);
        match best {
            Some(s) => s,
            None => self.severity_for_file(rule, location),
        }
    }
}


/// Why a configuration was refused: a pattern that `globset` does not
/// accept, or a rule name that is not a built-in rule.
#[derive(Debug, Clone, Copy, PartialEq, Eq, Structural)]
pub enum ConfigErrorKind {
    InvalidGlob,
    UnknownRule,
}

/// A refused configuration: the reason, and the pattern or rule name as
/// written.
#[derive(Debug)]
pub struct ConfigError {
    pub kind: ConfigErrorKind,
    pub subject: String,
}

pub type ConfigErrorView = (ConfigErrorKind, Seq<char>);

impl DeepView for ConfigError {
    type V = ConfigErrorView;

    open spec fn deep_view(&self) -> ConfigErrorView {
        (self.kind, self.subject@)
    }
}

/// A rule group as written in a configuration file.
#[derive(Debug)]
pub struct RawRuleGroup {
    pub files: Option<Vec<String>>,
    pub ignores: Vec<String>,
    pub rules: Vec<(String, Severity)>,
}

pub struct RawRuleGroupView {
    pub files: Option<Seq<Seq<char>>>,
    pub ignores: Seq<Seq<char>>,
    pub rules: Seq<(Seq<char>, Severity)>,
}

impl DeepView for RawRuleGroup {
    type V = RawRuleGroupView;

    open spec fn deep_view(&self) -> RawRuleGroupView {
        RawRuleGroupView {
            files: self.files.deep_view(),
            ignores: self.ignores.deep_view(),
            rules: self.rules.deep_view(),
        }
    }
}

/// A configuration file's content: a table with global ignores, rules and
/// overrides, or a flat list of groups.
#[derive(Debug)]
pub enum ConfigDocument {
    Structured { global_ignores: Vec<String>, rules: Vec<(String, Severity)>, overrides: Vec<RawRuleGroup> },
    Flat(Vec<RawRuleGroup>),
}

pub enum ConfigDocumentView {
    Structured {
        global_ignores: Seq<Seq<char>>,
        rules: Seq<(Seq<char>, Severity)>,
        overrides: Seq<RawRuleGroupView>,
    },
    Flat(Seq<RawRuleGroupView>),
}

impl DeepView for ConfigDocument {
    type V = ConfigDocumentView;

    open spec fn deep_view(&self) -> ConfigDocumentView {
        match self {
            ConfigDocument::Structured { global_ignores, rules, overrides } => ConfigDocumentView::Structured {
                global_ignores: global_ignores.deep_view(),
                rules: rules.deep_view(),
                overrides: overrides.deep_view(),
            },
            ConfigDocument::Flat(items) => ConfigDocumentView::Flat(items.deep_view()),
        }
    }
}

/// `s` without its trailing `/` characters.
pub open spec fn trim_end_slashes(s: Seq<char>) -> Seq<char>
    decreases s.len(),
{
    if s.len() > 0 && s.last() == '/' {
        trim_end_slashes(s.drop_last())
    } else {
        s
    }
}

/// `Path::join` of a relative path: the two joined by one separator; an
/// empty base adds none.
pub open spec fn join_path(base: Seq<char>, name: Seq<char>) -> Seq<char> {
    if base.len() == 0 {
        name
    } else if base.last() == '/' {
        base + name
    } else {
        base + seq!['/'] + name
    }
}

pub open spec fn pattern_negated(raw: Seq<char>) -> bool {
    raw.len() > 0 && raw[0] == '!'
}

/// A pattern without its `!` and without a leading `./` or `.\`.
pub open spec fn pattern_body(raw: Seq<char>) -> Seq<char> {
    let g = if pattern_negated(raw) {
        raw.skip(1)
    } else {
        raw
    };
    if has_prefix(g, seq!['.', '/']) || has_prefix(g, seq!['.', '\\']) {
        g.skip(2)
    } else {
        g
    }
}

/// The glob that a pattern written in a configuration beside `base` stands
/// for: absolute, with forward slashes, without trailing slashes.
pub open spec fn pattern_glob(raw: Seq<char>, base: Seq<char>) -> Seq<char> {
    let g = pattern_body(raw);
    let absolute = if g.len() > 0 && g[0] == '/' {
        g
    } else {
        join_path(base, g)
    };
    trim_end_slashes(slashes_forward(absolute))
}

/// The patterns `raws` compiled in order; the first that is too long or
/// that `globset` refuses is the error.
pub open spec fn compile_all(raws: Seq<Seq<char>>, base: Seq<char>) -> Result<Seq<PatternView>, ConfigErrorView>
    decreases raws.len(),
{
    if raws.len() == 0 {
        Ok(Seq::empty())
    } else {
        match compile_all(raws.drop_last(), base) {
            Err(e) => Err(e),
            Ok(ps) => {
                let g = pattern_glob(raws.last(), base);
                if pattern_usable(g) {
                    Ok(ps.push(PatternView { negated: pattern_negated(raws.last()), glob: g }))
                } else {
                    Err((ConfigErrorKind::InvalidGlob, raws.last()))
                }
            },
        }
    }
}

/// The rule settings as a map by rule name; a later setting of a rule wins.
pub open spec fn rules_map(rules: Seq<(Seq<char>, Severity)>) -> Seq<(Seq<char>, Severity)>
    decreases rules.len(),
{
    if rules.len() == 0 {
        Seq::empty()
    } else {
        assoc_put(rules_map(rules.drop_last()), rules.last().0, rules.last().1, false)
    }
}

/// A group as compiled: its file patterns, then its ignores.
pub open spec fn compile_group(raw: RawRuleGroupView, base: Seq<char>) -> Result<RuleGroupView, ConfigErrorView> {
    let files = match raw.files {
        None => Ok(None),
        Some(fs) => match compile_all(fs, base) {
            Ok(ps) => Ok(Some(ps)),
            Err(e) => Err(e),
        },
    };
    match files {
        Err(e) => Err(e),
        Ok(files) => match compile_all(raw.ignores, base) {
            Err(e) => Err(e),
            Ok(ignores) => Ok(RuleGroupView { files: files, ignores: ignores, rules: rules_map(raw.rules) }),
        },
    }
}

pub open spec fn push_group(c: ConfigView, g: RuleGroupView) -> ConfigView {
    ConfigView { groups: c.groups.push(g), ..c }
}

/// `c` with the groups `raws` compiled and added in order.
pub open spec fn with_groups(c: ConfigView, raws: Seq<RawRuleGroupView>, base: Seq<char>) -> Result<ConfigView, ConfigErrorView>
    decreases raws.len(),
{
    if raws.len() == 0 {
        Ok(c)
    } else {
        match with_groups(c, raws.drop_last(), base) {
            Err(e) => Err(e),
            Ok(c1) => match compile_group(raws.last(), base) {
                Err(e) => Err(e),
                Ok(g) => Ok(push_group(c1, g)),
            },
        }
    }
}

/// `c` with the items of a flat list added in order: an item with neither
/// rules nor file patterns adds global ignores, any other adds a group.
pub open spec fn with_flat_items(c: ConfigView, items: Seq<RawRuleGroupView>, base: Seq<char>) -> Result<ConfigView, ConfigErrorView>
    decreases items.len(),
{
    if items.len() == 0 {
        Ok(c)
    } else {
        match with_flat_items(c, items.drop_last(), base) {
            Err(e) => Err(e),
            Ok(c1) => {
                let item = items.last();
                if item.rules.len() == 0 && item.files is None {
                    match compile_all(item.ignores, base) {
                        Err(e) => Err(e),
                        Ok(ps) => Ok(ConfigView { global_ignores: c1.global_ignores + ps, ..c1 }),
                    }
                } else {
                    match compile_group(item, base) {
                        Err(e) => Err(e),
                        Ok(g) => Ok(push_group(c1, g)),
                    }
                }
            },
        }
    }
}

/// The first rule name of `rules` that is not a built-in rule.
pub open spec fn unknown_rule_in(rules: Seq<(Seq<char>, Severity)>) -> Option<Seq<char>>
    decreases rules.len(),
{
    if rules.len() == 0 {
        None
    } else {
        match unknown_rule_in(rules.drop_last()) {
            Some(r) => Some(r),
            None => if spec_all_rules().contains(rules.last().0) {
                None
            } else {
                Some(rules.last().0)
            },
        }
    }
}

/// The first configured rule name, group by group, that is not a built-in rule.
pub open spec fn first_unknown_rule(groups: Seq<RuleGroupView>) -> Option<Seq<char>>
    decreases groups.len(),
{
    if groups.len() == 0 {
        None
    } else {
        match first_unknown_rule(groups.drop_last()) {
            Some(r) => Some(r),
            None => unknown_rule_in(groups.last().rules),
        }
    }
}

/// The folder that the patterns of the configuration file at `path` are
/// relative to.
pub open spec fn config_base(path: Seq<char>) -> Seq<char> {
    match spec_parent(path) {
        Some(d) => d,
        None => "."@,
    }
}

/// The Structured form: its global ignores, then its top-level rules as a
/// group (when there are any), then its overrides.
pub open spec fn structured_config(
    c0: ConfigView,
    global_ignores: Seq<Seq<char>>,
    rules: Seq<(Seq<char>, Severity)>,
    overrides: Seq<RawRuleGroupView>,
    base: Seq<char>,
) -> Result<ConfigView, ConfigErrorView> {
    match compile_all(global_ignores, base) {
        Err(e) => Err(e),
        Ok(ps) => {
            let c1 = ConfigView { global_ignores: ps, ..c0 };
            let c2 = if rules.len() == 0 {
                Ok(c1)
            } else {
                match compile_group(RawRuleGroupView { files: None, ignores: Seq::empty(), rules: rules }, base) {
                    Err(e) => Err(e),
                    Ok(g) => Ok(push_group(c1, g)),
                }
            };
            match c2 {
                Err(e) => Err(e),
                Ok(c2) => with_groups(c2, overrides, base),
            }
        },
    }
}

/// The configuration that the file at `path` with content `doc` gives: the
/// recommended preset with the file's global ignores and groups added, or
/// the first error.
pub open spec fn spec_config_from_document(path: Seq<char>, doc: ConfigDocumentView) -> Result<ConfigView, ConfigErrorView> {
    let base = config_base(path);
    let c0 = ConfigView { path: Some(path), ..spec_recommended() };
    let built = match doc {
        ConfigDocumentView::Structured { global_ignores, rules, overrides } => structured_config(
            c0,
            global_ignores,
            rules,
            overrides,
            base,
        ),
        ConfigDocumentView::Flat(items) => with_flat_items(c0, items, base),
    };
    match built {
        Err(e) => Err(e),
        Ok(c) => match first_unknown_rule(c.groups) {
            Some(r) => Err((ConfigErrorKind::UnknownRule, r)),
            None => Ok(c),
        },
    }
}

fn trim_end_slashes_exec(s: &String) -> (r: String)
    ensures
        r@ == trim_end_slashes(s@),
{
    let cs = chars_of(s.as_str());
    let mut n = cs.len();
    assert(cs@.take(n as int) =~= cs@);
    while n > 0 && cs[n - 1] == '/'
        invariant
            n <= cs@.len(),
            trim_end_slashes(cs@) == trim_end_slashes(cs@.take(n as int)),
        decreases n,
    {
        assert(cs@.take(n as int).drop_last() =~= cs@.take(n - 1));
        n = n - 1;
    }
    let r = string_of_range(&cs, 0, n);
    assert(r@ =~= cs@.take(n as int));
    r
}

pub fn join_path_exec(base: &str, name: &str) -> (r: String)
    ensures
        r@ == join_path(base@, name@),
{
    let bc = chars_of(base);
    let mut r = String::new();
    push_text(&mut r, base);
    if bc.len() > 0 && bc[bc.len() - 1] != '/' {
        push_char(&mut r, '/');
    }
    push_text(&mut r, name);
    assert(r@ =~= join_path(base@, name@));
    r
}

/// The glob of a configuration pattern (see `pattern_glob`).
pub fn compile_pattern_text(raw: &str, base: &str) -> (r: (bool, String))
    ensures
        r.0 == pattern_negated(raw@),
        r.1@ == pattern_glob(raw@, base@),
{
    let cs = chars_of(raw);
    let negated = cs.len() > 0 && cs[0] == '!';
    let start: usize = if negated { 1 } else { 0 };
    let g0 = string_of_range(&cs, start, cs.len());
    assert(g0@ =~= (if pattern_negated(raw@) { raw@.skip(1) } else { raw@ }));
    let gc = chars_of(g0.as_str());
    let dot_slash = vec!['.', '/'];
    let dot_back = vec!['.', '\\'];
    assert(dot_slash@ =~= seq!['.', '/']);
    assert(dot_back@ =~= seq!['.', '\\']);
    let g = if chars_have_prefix(&gc, &dot_slash) || chars_have_prefix(&gc, &dot_back) {
        string_of_range(&gc, 2, gc.len())
    } else {
        string_of_range(&gc, 0, gc.len())
    };
    assert(g@ =~= pattern_body(raw@));
    let gcs = chars_of(g.as_str());
    let absolute = if gcs.len() > 0 && gcs[0] == '/' {
        g
    } else {
        join_path_exec(base, g.as_str())
    };
    let normalized = forward_slashes(absolute.as_str());
    (negated, trim_end_slashes_exec(&normalized))
}

fn compile_patterns(raws: &Vec<String>, base: &str) -> (r: Result<Vec<Pattern>, ConfigError>)
    ensures
        match r {
            Ok(ps) => compile_all(raws.deep_view(), base@) == Ok::<Seq<PatternView>, ConfigErrorView>(ps.deep_view()),
            Err(e) => compile_all(raws.deep_view(), base@) == Err::<Seq<PatternView>, ConfigErrorView>(e.deep_view()),
        },
{
    let ghost rv = raws.deep_view();
    let mut ps: Vec<Pattern> = Vec::new();
    assert(compile_all(rv.take(0), base@) == Ok::<Seq<PatternView>, ConfigErrorView>(Seq::empty()));
    assert(ps.deep_view() =~= Seq::<PatternView>::empty());
    let mut i: usize = 0;
    while i < raws.len()
        invariant
            i <= rv.len(),
            rv == raws.deep_view(),
            rv.len() == raws@.len(),
            compile_all(rv.take(i as int), base@) == Ok::<Seq<PatternView>, ConfigErrorView>(ps.deep_view()),
        decreases raws.len() - i,
    {
        assert(rv.take(i + 1).drop_last() =~= rv.take(i as int));
        assert(rv.take(i + 1).last() == raws@[i as int]@);
        let (negated, glob) = compile_pattern_text(raws[i].as_str(), base);
        let too_long = chars_of(glob.as_str()).len() > MAX_GLOB_CHARS;
        if too_long || !glob_builds(glob.as_str()) {
            let e = ConfigError { kind: ConfigErrorKind::InvalidGlob, subject: raws[i].clone() };
            proof {
                lemma_compile_all_prefix_err(rv, base@, i as int + 1);
            }
            return Err(e);
        }
        let ghost before = ps.deep_view();
        ps.push(Pattern { negated, glob });
        assert(ps.deep_view() =~= before.push(PatternView { negated: negated, glob: glob@ }));
        i = i + 1;
    }
    assert(rv.take(rv.len() as int) =~= rv);
    Ok(ps)
}

/// An error in the first `k` patterns is the error of them all.
proof fn lemma_compile_all_prefix_err(raws: Seq<Seq<char>>, base: Seq<char>, k: int)
    requires
        0 <= k <= raws.len(),
        compile_all(raws.take(k), base) is Err,
    ensures
        compile_all(raws, base) == compile_all(raws.take(k), base),
    decreases raws.len() - k,
{
    if k < raws.len() {
        assert(raws.take(k + 1).drop_last() =~= raws.take(k));
        lemma_compile_all_prefix_err(raws, base, k + 1);
    } else {
        assert(raws.take(k) =~= raws);
    }
}

proof fn lemma_compile_all_accepted(raws: Seq<Seq<char>>, base: Seq<char>)
    ensures
        compile_all(raws, base) matches Ok(ps) ==> patterns_accepted(ps),
    decreases raws.len(),
{
    if raws.len() > 0 {
        lemma_compile_all_accepted(raws.drop_last(), base);
    }
}

fn compile_rules(rules: &Vec<(String, Severity)>) -> (r: Vec<(String, Severity)>)
    ensures
        r.deep_view() == rules_map(rules.deep_view()),
{
    let ghost rv = rules.deep_view();
    let mut r: Vec<(String, Severity)> = Vec::new();
    assert(r.deep_view() =~= rules_map(rv.take(0)));
    let mut i: usize = 0;
    while i < rules.len()
        invariant
            i <= rv.len(),
            rv == rules.deep_view(),
            rv.len() == rules@.len(),
            r.deep_view() == rules_map(rv.take(i as int)),
        decreases rules.len() - i,
    {
        assert(rv.take(i + 1).drop_last() =~= rv.take(i as int));
        assert(rv.take(i + 1).last() == rules@[i as int].deep_view());
        assoc_insert(&mut r, rules[i].0.clone(), rules[i].1, false);
        i = i + 1;
    }
    assert(rv.take(rv.len() as int) =~= rv);
    r
}

fn compile_group_exec(raw: &RawRuleGroup, base: &str) -> (r: Result<RuleGroup, ConfigError>)
    ensures
        match r {
            Ok(g) => compile_group(raw.deep_view(), base@) == Ok::<RuleGroupView, ConfigErrorView>(g.deep_view())
                && group_accepted(g.deep_view()),
            Err(e) => compile_group(raw.deep_view(), base@) == Err::<RuleGroupView, ConfigErrorView>(e.deep_view()),
        },
{
    let files = match &raw.files {
        None => None,
        Some(fs) => match compile_patterns(fs, base) {
            Ok(ps) => Some(ps),
            Err(e) => {
                return Err(e);
            },
        },
    };
    let ignores = match compile_patterns(&raw.ignores, base) {
        Ok(ps) => ps,
        Err(e) => {
            return Err(e);
        },
    };
    proof {
        lemma_compile_all_accepted(raw.ignores.deep_view(), base@);
        match raw.files.deep_view() {
            Some(fs) => lemma_compile_all_accepted(fs, base@),
            None => {},
        }
    }
    let rules = compile_rules(&raw.rules);
    Ok(RuleGroup { files, ignores, rules })
}


fn extend_patterns(dst: &mut Vec<Pattern>, src: Vec<Pattern>)
    ensures
        final(dst).deep_view() == old(dst).deep_view() + src.deep_view(),
{
    let ghost start = dst.deep_view();
    let ghost sv = src.deep_view();
    let mut src = src;
    let mut rest: Vec<Pattern> = Vec::new();
    // Reverse into `rest`, then pop back in order.
    while src.len() > 0
        invariant
            sv =~= src.deep_view() + rest.deep_view().reverse(),
        decreases src.len(),
    {
        let ghost sd = src.deep_view();
        let ghost rd = rest.deep_view();
        let p = src.pop().unwrap();
        rest.push(p);
        assert(sd =~= src.deep_view().push(p.deep_view()));
        assert(rest.deep_view() =~= rd.push(p.deep_view()));
        assert(rest.deep_view().reverse() =~= seq![p.deep_view()] + rd.reverse());
    }
    assert(sv =~= rest.deep_view().reverse());
    while rest.len() > 0
        invariant
            dst.deep_view() + rest.deep_view().reverse() =~= start + sv,
        decreases rest.len(),
    {
        let ghost dd = dst.deep_view();
        let ghost rd = rest.deep_view();
        let p = rest.pop().unwrap();
        assert(rd =~= rest.deep_view().push(p.deep_view()));
        assert(rd.reverse() =~= seq![p.deep_view()] + rest.deep_view().reverse());
        dst.push(p);
        assert(dst.deep_view() =~= dd.push(p.deep_view()));
    }
    assert(rest.deep_view().reverse() =~= Seq::<PatternView>::empty());
}

fn is_known_rule(names: &Vec<&'static str>, rule: &String) -> (r: bool)
    requires
        strs_view(names@) == spec_all_rules(),
    ensures
        r == spec_all_rules().contains(rule@),
{
    let mut k: usize = 0;
    while k < names.len()
        invariant
            k <= names@.len(),
            strs_view(names@) == spec_all_rules(),
            forall|m: int| 0 <= m < k ==> spec_all_rules()[m] != rule@,
        decreases names.len() - k,
    {
        assert(spec_all_rules()[k as int] == names@[k as int]@);
        if text_eq(rule.as_str(), names[k]) {
            return true;
        }
        k = k + 1;
    }
    false
}

fn unknown_rule_of(names: &Vec<&'static str>, rules: &Vec<(String, Severity)>) -> (r: Option<String>)
    requires
        strs_view(names@) == spec_all_rules(),
    ensures
        r.deep_view() == unknown_rule_in(rules.deep_view()),
{
    let ghost rv = rules.deep_view();
    let mut j: usize = 0;
    assert(unknown_rule_in(rv.take(0)) is None);
    while j < rules.len()
        invariant
            j <= rv.len(),
            rv == rules.deep_view(),
            rv.len() == rules@.len(),
            strs_view(names@) == spec_all_rules(),
            unknown_rule_in(rv.take(j as int)) is None,
        decreases rules.len() - j,
    {
        assert(rv.take(j + 1).drop_last() =~= rv.take(j as int));
        assert(rv.take(j + 1).last() == rules@[j as int].deep_view());
        if !is_known_rule(names, &rules[j].0) {
            assert(unknown_rule_in(rv.take(j + 1)) == Some(rv[j as int].0));
            proof {
                lemma_unknown_prefix(rv, j as int + 1);
            }
            return Some(rules[j].0.clone());
        }
        j = j + 1;
    }
    assert(rv.take(rv.len() as int) =~= rv);
    None
}

/// The first configured rule name that is not a built-in rule.
fn find_unknown_rule(groups: &Vec<RuleGroup>) -> (r: Option<String>)
    ensures
        r.deep_view() == first_unknown_rule(groups.deep_view()),
{
    let names = all_rules();
    let ghost gv = groups.deep_view();
    let mut i: usize = 0;
    assert(first_unknown_rule(gv.take(0)) is None);
    while i < groups.len()
        invariant
            i <= gv.len(),
            gv == groups.deep_view(),
            gv.len() == groups@.len(),
            strs_view(names@) == spec_all_rules(),
            first_unknown_rule(gv.take(i as int)) is None,
        decreases groups.len() - i,
    {
        assert(gv.take(i + 1).drop_last() =~= gv.take(i as int));
        assert(gv.take(i + 1).last() == groups@[i as int].deep_view());
        match unknown_rule_of(&names, &groups[i].rules) {
            Some(rule) => {
                proof {
                    lemma_first_unknown_prefix(gv, i as int + 1);
                }
                return Some(rule);
            },
            None => {},
        }
        i = i + 1;
    }
    assert(gv.take(gv.len() as int) =~= gv);
    None
}

proof fn lemma_unknown_prefix(rules: Seq<(Seq<char>, Severity)>, k: int)
    requires
        0 <= k <= rules.len(),
        unknown_rule_in(rules.take(k)) is Some,
    ensures
        unknown_rule_in(rules) == unknown_rule_in(rules.take(k)),
    decreases rules.len() - k,
{
    if k < rules.len() {
        assert(rules.take(k + 1).drop_last() =~= rules.take(k));
        lemma_unknown_prefix(rules, k + 1);
    } else {
        assert(rules.take(k) =~= rules);
    }
}

proof fn lemma_first_unknown_prefix(groups: Seq<RuleGroupView>, k: int)
    requires
        0 <= k <= groups.len(),
        first_unknown_rule(groups.take(k)) is Some,
    ensures
        first_unknown_rule(groups) == first_unknown_rule(groups.take(k)),
    decreases groups.len() - k,
{
    if k < groups.len() {
        assert(groups.take(k + 1).drop_last() =~= groups.take(k));
        lemma_first_unknown_prefix(groups, k + 1);
    } else {
        assert(groups.take(k) =~= groups);
    }
}

proof fn lemma_with_groups_prefix_err(c: ConfigView, raws: Seq<RawRuleGroupView>, base: Seq<char>, k: int)
    requires
        0 <= k <= raws.len(),
        with_groups(c, raws.take(k), base) is Err,
    ensures
        with_groups(c, raws, base) == with_groups(c, raws.take(k), base),
    decreases raws.len() - k,
{
    if k < raws.len() {
        assert(raws.take(k + 1).drop_last() =~= raws.take(k));
        lemma_with_groups_prefix_err(c, raws, base, k + 1);
    } else {
        assert(raws.take(k) =~= raws);
    }
}

proof fn lemma_flat_prefix_err(c: ConfigView, items: Seq<RawRuleGroupView>, base: Seq<char>, k: int)
    requires
        0 <= k <= items.len(),
        with_flat_items(c, items.take(k), base) is Err,
    ensures
        with_flat_items(c, items, base) == with_flat_items(c, items.take(k), base),
    decreases items.len() - k,
{
    if k < items.len() {
        assert(items.take(k + 1).drop_last() =~= items.take(k));
        lemma_flat_prefix_err(c, items, base, k + 1);
    } else {
        assert(items.take(k) =~= items);
    }
}

fn push_compiled_group(config: &mut Config, raw: &RawRuleGroup, base: &str) -> (r: Result<(), ConfigError>)
    requires
        old(config).wf(),
    ensures
        final(config).wf(),
        match r {
            Ok(_) => compile_group(raw.deep_view(), base@) matches Ok(g) && final(config).deep_view() == push_group(
                old(config).deep_view(),
                g,
            ),
            Err(e) => compile_group(raw.deep_view(), base@) == Err::<RuleGroupView, ConfigErrorView>(e.deep_view()),
        },
{
    match compile_group_exec(raw, base) {
        Err(e) => Err(e),
        Ok(g) => {
            let ghost before = config.groups.deep_view();
            let ghost gd = g.deep_view();
            config.groups.push(g);
            assert(config.groups.deep_view() =~= before.push(gd));
            Ok(())
        },
    }
}

fn build_structured(
    config: &mut Config,
    global_ignores: &Vec<String>,
    rules: Vec<(String, Severity)>,
    overrides: &Vec<RawRuleGroup>,
    base: &str,
) -> (r: Result<(), ConfigError>)
    requires
        old(config).wf(),
    ensures
        final(config).wf(),
        match r {
            Ok(_) => structured_config(
                old(config).deep_view(),
                global_ignores.deep_view(),
                rules.deep_view(),
                overrides.deep_view(),
                base@,
            ) == Ok::<ConfigView, ConfigErrorView>(final(config).deep_view()),
            Err(e) => structured_config(
                old(config).deep_view(),
                global_ignores.deep_view(),
                rules.deep_view(),
                overrides.deep_view(),
                base@,
            ) == Err::<ConfigView, ConfigErrorView>(e.deep_view()),
        },
{
    let ghost c0 = config.deep_view();
    let ghost rules_v = rules.deep_view();
    match compile_patterns(global_ignores, base) {
        Err(e) => {
            return Err(e);
        },
        Ok(ps) => {
            proof {
                lemma_compile_all_accepted(global_ignores.deep_view(), base@);
            }
            config.global_ignores = ps;
        },
    }
    let ghost c1 = config.deep_view();
    assert(c1 == ConfigView { global_ignores: compile_all(global_ignores.deep_view(), base@)->Ok_0, ..c0 });
    if rules.len() != 0 {
        let raw = RawRuleGroup { files: None, ignores: Vec::new(), rules };
        assert(raw.ignores.deep_view() =~= Seq::<Seq<char>>::empty());
        assert(raw.deep_view() == RawRuleGroupView { files: None, ignores: Seq::empty(), rules: rules_v });
        match push_compiled_group(config, &raw, base) {
            Err(e) => {
                return Err(e);
            },
            Ok(_) => {},
        }
    }
    let ghost c2 = config.deep_view();
    let ghost ov = overrides.deep_view();
    assert(with_groups(c2, ov.take(0), base@) == Ok::<ConfigView, ConfigErrorView>(c2));
    assert(structured_config(c0, global_ignores.deep_view(), rules_v, ov, base@) == with_groups(c2, ov, base@));
    let mut i: usize = 0;
    while i < overrides.len()
        invariant
            i <= ov.len(),
            c0 == old(config).deep_view(),
            rules_v == rules.deep_view(),
            structured_config(c0, global_ignores.deep_view(), rules_v, ov, base@) == with_groups(c2, ov, base@),
            ov == overrides.deep_view(),
            ov.len() == overrides@.len(),
            config.wf(),
            with_groups(c2, ov.take(i as int), base@) == Ok::<ConfigView, ConfigErrorView>(config.deep_view()),
        decreases overrides.len() - i,
    {
        assert(ov.take(i + 1).drop_last() =~= ov.take(i as int));
        assert(ov.take(i + 1).last() == overrides@[i as int].deep_view());
        match push_compiled_group(config, &overrides[i], base) {
            Err(e) => {
                proof {
                    lemma_with_groups_prefix_err(c2, ov, base@, i as int + 1);
                }
                return Err(e);
            },
            Ok(_) => {},
        }
        i = i + 1;
    }
    assert(ov.take(ov.len() as int) =~= ov);
    Ok(())
}

fn build_flat(config: &mut Config, items: &Vec<RawRuleGroup>, base: &str) -> (r: Result<(), ConfigError>)
    requires
        old(config).wf(),
    ensures
        final(config).wf(),
        match r {
            Ok(_) => with_flat_items(old(config).deep_view(), items.deep_view(), base@)
                == Ok::<ConfigView, ConfigErrorView>(final(config).deep_view()),
            Err(e) => with_flat_items(old(config).deep_view(), items.deep_view(), base@)
                == Err::<ConfigView, ConfigErrorView>(e.deep_view()),
        },
{
    let ghost c0 = config.deep_view();
    let ghost iv = items.deep_view();
    assert(with_flat_items(c0, iv.take(0), base@) == Ok::<ConfigView, ConfigErrorView>(c0));
    let mut i: usize = 0;
    while i < items.len()
        invariant
            i <= iv.len(),
            c0 == old(config).deep_view(),
            iv == items.deep_view(),
            iv.len() == items@.len(),
            config.wf(),
            with_flat_items(c0, iv.take(i as int), base@) == Ok::<ConfigView, ConfigErrorView>(config.deep_view()),
        decreases items.len() - i,
    {
        assert(iv.take(i + 1).drop_last() =~= iv.take(i as int));
        assert(iv.take(i + 1).last() == items@[i as int].deep_view());
        let item = &items[i];
        if item.rules.len() == 0 && item.files.is_none() {
            match compile_patterns(&item.ignores, base) {
                Err(e) => {
                    proof {
                        lemma_flat_prefix_err(c0, iv, base@, i as int + 1);
                    }
                    return Err(e);
                },
                Ok(ps) => {
                    proof {
                        lemma_compile_all_accepted(item.ignores.deep_view(), base@);
                    }
                    extend_patterns(&mut config.global_ignores, ps);
                },
            }
        } else {
            match push_compiled_group(config, item, base) {
                Err(e) => {
                    proof {
                        lemma_flat_prefix_err(c0, iv, base@, i as int + 1);
                    }
                    return Err(e);
                },
                Ok(_) => {},
            }
        }
        i = i + 1;
    }
    assert(iv.take(iv.len() as int) =~= iv);
    Ok(())
}

impl Config {
    /// The configuration that the file at `path` (a canonical path) with
    /// content `document` gives (see `spec_config_from_document`).
    pub fn from_document(path: &str, document: ConfigDocument) -> (r: Result<Config, ConfigError>)
        ensures
            match r {
                Ok(c) => spec_config_from_document(path@, document.deep_view())
                    == Ok::<ConfigView, ConfigErrorView>(c.deep_view()) && c.wf(),
                Err(e) => spec_config_from_document(path@, document.deep_view())
                    == Err::<ConfigView, ConfigErrorView>(e.deep_view()),
            },
    {
        let base = match parent(path) {
            Some(d) => d,
            None => ".".to_owned(),
        };
        assert(base@ == config_base(path@));
        let mut config = Config::recommended();
        config.path = Some(path.to_owned());
        let ghost c0 = config.deep_view();
        assert(c0 == ConfigView { path: Some(path@), ..spec_recommended() });
        let built = match document {
            ConfigDocument::Structured { global_ignores, rules, overrides } => build_structured(
                &mut config,
                &global_ignores,
                rules,
                &overrides,
                base.as_str(),
            ),
            ConfigDocument::Flat(items) => build_flat(&mut config, &items, base.as_str()),
        };
        match built {
            Err(e) => Err(e),
            Ok(_) => match find_unknown_rule(&config.groups) {
                Some(rule) => Err(ConfigError { kind: ConfigErrorKind::UnknownRule, subject: rule }),
                None => Ok(config),
            },
        }
    }
}


/// The names under which a configuration file is looked for, in order.
pub open spec fn config_names() -> Seq<Seq<char>> {
    seq![
        "steiger.toml"@,
        ".steiger.toml"@,
        "steiger.config.toml"@,
        "steiger.json"@,
        ".steiger.json"@,
        "steiger.config.json"@,
    ]
}

pub open spec fn names_in(dir: Seq<char>, names: Seq<Seq<char>>) -> Seq<Seq<char>>
    decreases names.len(),
{
    if names.len() == 0 {
        Seq::empty()
    } else {
        names_in(dir, names.drop_last()).push(join_path(dir, names.last()))
    }
}

pub open spec fn candidates_in(dirs: Seq<Seq<char>>) -> Seq<Seq<char>>
    decreases dirs.len(),
{
    if dirs.len() == 0 {
        Seq::empty()
    } else {
        candidates_in(dirs.drop_last()) + names_in(dirs.last(), config_names())
    }
}

/// Where a configuration file is looked for from `start`: in `start`, then
/// in each of its ancestors, each configuration name in order. The first
/// candidate that is a file is the configuration.
pub open spec fn spec_config_candidates(start: Seq<char>) -> Seq<Seq<char>> {
    candidates_in(spec_ancestors(start))
}

fn config_name_list() -> (r: Vec<&'static str>)
    ensures
        strs_view(r@) == config_names(),
{
    let r = vec![
        "steiger.toml",
        ".steiger.toml",
        "steiger.config.toml",
        "steiger.json",
        ".steiger.json",
        "steiger.config.json",
    ];
    assert(strs_view(r@) =~= config_names());
    r
}

/// The paths at which a configuration file is looked for (see
/// `spec_config_candidates`).
pub fn config_candidates(start: &str) -> (r: Vec<String>)
    ensures
        r.deep_view() == spec_config_candidates(start@),
{
    let dirs = ancestors(start);
    let names = config_name_list();
    let ghost dv = dirs.deep_view();
    let mut r: Vec<String> = Vec::new();
    assert(r.deep_view() =~= candidates_in(dv.take(0)));
    let mut i: usize = 0;
    while i < dirs.len()
        invariant
            i <= dv.len(),
            dv == dirs.deep_view(),
            dv.len() == dirs@.len(),
            strs_view(names@) == config_names(),
            r.deep_view() == candidates_in(dv.take(i as int)),
        decreases dirs.len() - i,
    {
        assert(dv.take(i + 1).drop_last() =~= dv.take(i as int));
        assert(dv.take(i + 1).last() == dirs@[i as int]@);
        let ghost start_r = r.deep_view();
        let mut j: usize = 0;
        assert(names_in(dv[i as int], config_names().take(0)) =~= Seq::<Seq<char>>::empty());
        assert(r.deep_view() =~= start_r + names_in(dv[i as int], config_names().take(0)));
        while j < names.len()
            invariant
                j <= names@.len(),
                i < dv.len(),
                dv == dirs.deep_view(),
                dv.len() == dirs@.len(),
                strs_view(names@) == config_names(),
                r.deep_view() == start_r + names_in(dv[i as int], config_names().take(j as int)),
            decreases names.len() - j,
        {
            assert(config_names().take(j + 1).drop_last() =~= config_names().take(j as int));
            assert(config_names().take(j + 1).last() == names@[j as int]@);
            let ghost b = r.deep_view();
            r.push(join_path_exec(dirs[i].as_str(), names[j]));
            assert(r.deep_view() =~= b.push(join_path(dv[i as int], names@[j as int]@)));
            j = j + 1;
        }
        assert(config_names().take(6) =~= config_names());
        i = i + 1;
    }
    assert(dv.take(dv.len() as int) =~= dv);
    r
}


/// Later overrides take precedence: a group added after the others that
/// sets `rule` and applies to `path` decides the rule's severity there.
pub proof fn lemma_later_group_decides(c: ConfigView, g: RuleGroupView, rule: Seq<char>, path: Seq<char>)
    requires
        assoc_get(g.rules, rule) is Some,
        spec_group_matches(g, path),
    ensures
        spec_severity_for_file(push_group(c, g), rule, path) == assoc_get(g.rules, rule)->Some_0,
{
    assert(c.groups.push(g).drop_last() =~= c.groups);
}

/// A group that does not set `rule`, or does not apply to `path`, leaves
/// the rule's severity there as it was.
pub proof fn lemma_other_group_keeps(c: ConfigView, g: RuleGroupView, rule: Seq<char>, path: Seq<char>)
    requires
        assoc_get(g.rules, rule) is None || !spec_group_matches(g, path),
    ensures
        spec_severity_for_file(push_group(c, g), rule, path) == spec_severity_for_file(c, rule, path),
{
    assert(c.groups.push(g).drop_last() =~= c.groups);
}

proof fn lemma_recommended_map(names: Seq<Seq<char>>, rule: Seq<char>)
    ensures
        assoc_get(recommended_rules_map(names), rule) == if names.contains(rule) {
            Some(Severity::Error)
        } else {
            None
        },
    decreases names.len(),
{
    if names.len() > 0 {
        lemma_recommended_map(names.drop_last(), rule);
        lemma_assoc_get_put(recommended_rules_map(names.drop_last()), names.last(), Severity::Error, false, rule);
        if names.contains(rule) {
            let i = choose|i: int| 0 <= i < names.len() && names[i] == rule;
            if i < names.len() - 1 {
                assert(names.drop_last()[i] == rule);
            }
        }
        if names.drop_last().contains(rule) {
            let i = choose|i: int| 0 <= i < names.drop_last().len() && names.drop_last()[i] == rule;
            assert(names[i] == rule);
        }
    }
}

/// Without a configuration file, the recommended rules are errors for
/// every file and every other rule is off.
pub proof fn lemma_recommended_severity(rule: Seq<char>, path: Seq<char>)
    ensures
        spec_severity_for_file(spec_recommended(), rule, path) == if spec_recommended_rules().contains(rule) {
            Severity::Error
        } else {
            Severity::Off
        },
{
    lemma_recommended_map(spec_recommended_rules(), rule);
    let c = spec_recommended();
    let g = recommended_group();
    assert(c.groups.len() == 1);
    assert(c.groups.last() == g);
    assert(c.groups.drop_last() =~= Seq::<RuleGroupView>::empty());
    assert(severity_in(c.groups.drop_last(), rule, path) == Severity::Off);
    assert(!some_match(g.ignores, false, path));
    assert(!spec_matches_patterns(path, g.ignores));
    assert(spec_group_matches(g, path));
}

/// A folder's severity is the highest of the files below it: the greatest
/// severity over the project files at or below `location`, which is that
/// of one of them.
pub proof fn lemma_folder_severity_is_highest(
    c: ConfigView,
    rule: Seq<char>,
    files: Seq<Seq<char>>,
    location: Seq<char>,
)
    ensures
        match descendant_severity(c, rule, files, location) {
            Some(s) => (forall|i: int|
                0 <= i < files.len() && spec_starts_with(files[i], location) ==> severity_rank(
                    spec_severity_for_file(c, rule, #[trigger] files[i]),
                ) <= severity_rank(s)) && exists|i: int|
                0 <= i < files.len() && spec_starts_with(files[i], location) && spec_severity_for_file(
                    c,
                    rule,
                    #[trigger] files[i],
                ) == s,
            None => forall|i: int| 0 <= i < files.len() ==> !spec_starts_with(#[trigger] files[i], location),
        },
    decreases files.len(),
{
    if files.len() > 0 {
        let t = files.drop_last();
        let last = files.len() - 1;
        lemma_folder_severity_is_highest(c, rule, t, location);
        assert(files[last] == files.last());
        let below = spec_starts_with(files.last(), location);
        let sl = spec_severity_for_file(c, rule, files.last());
        match descendant_severity(c, rule, t, location) {
            Some(m) => {
                let j = choose|j: int|
                    0 <= j < t.len() && spec_starts_with(t[j], location) && spec_severity_for_file(c, rule, #[trigger] t[j]) == m;
                assert(files[j] == t[j]);
                let r = descendant_severity(c, rule, files, location)->Some_0;
                assert forall|i: int|
                    0 <= i < files.len() && spec_starts_with(files[i], location) implies severity_rank(
                    spec_severity_for_file(c, rule, #[trigger] files[i]),
                ) <= severity_rank(r) by {
                    if i < last {
                        assert(t[i] == files[i]);
                    }
                }
                if below && severity_rank(m) < severity_rank(sl) {
                    assert(spec_starts_with(files[last], location) && spec_severity_for_file(c, rule, files[last]) == r);
                } else {
                    assert(spec_starts_with(files[j], location) && spec_severity_for_file(c, rule, files[j]) == r);
                }
            },
            None => {
                if below {
                    let r = descendant_severity(c, rule, files, location)->Some_0;
                    assert(r == sl);
                    assert forall|i: int|
                        0 <= i < files.len() && spec_starts_with(files[i], location) implies severity_rank(
                        spec_severity_for_file(c, rule, #[trigger] files[i]),
                    ) <= severity_rank(r) by {
                        if i < last {
                            assert(t[i] == files[i]);
                        }
                    }
                    assert(spec_starts_with(files[last], location) && spec_severity_for_file(c, rule, files[last]) == r);
                } else {
                    assert forall|i: int| 0 <= i < files.len() implies !spec_starts_with(#[trigger] files[i], location) by {
                        if i < last {
                            assert(t[i] == files[i]);
                        }
                    }
                }
            },
        }
    }
}

proof fn lemma_known_rules_in(rules: Seq<(Seq<char>, Severity)>)
    requires
        unknown_rule_in(rules) is None,
    ensures
        forall|j: int| 0 <= j < rules.len() ==> spec_all_rules().contains(#[trigger] rules[j].0),
    decreases rules.len(),
{
    if rules.len() > 0 {
        lemma_known_rules_in(rules.drop_last());
        assert forall|j: int| 0 <= j < rules.len() implies spec_all_rules().contains(#[trigger] rules[j].0) by {
            if j < rules.len() - 1 {
                assert(rules.drop_last()[j] == rules[j]);
            }
        }
    }
}

proof fn lemma_known_rules(groups: Seq<RuleGroupView>)
    requires
        first_unknown_rule(groups) is None,
    ensures
        forall|i: int, j: int|
            0 <= i < groups.len() && 0 <= j < groups[i].rules.len() ==> spec_all_rules().contains(
                #[trigger] groups[i].rules[j].0,
            ),
    decreases groups.len(),
{
    if groups.len() > 0 {
        lemma_known_rules(groups.drop_last());
        lemma_known_rules_in(groups.last().rules);
        assert forall|i: int, j: int|
            0 <= i < groups.len() && 0 <= j < groups[i].rules.len() implies spec_all_rules().contains(
                #[trigger] groups[i].rules[j].0,
            ) by {
            if i < groups.len() - 1 {
                assert(groups.drop_last()[i] == groups[i]);
            } else {
                assert(groups[i] == groups.last());
            }
        }
    }
}

/// A configuration that loads sets built-in rules only.
pub proof fn lemma_loaded_rules_are_known(path: Seq<char>, doc: ConfigDocumentView)
    ensures
        spec_config_from_document(path, doc) matches Ok(c) ==> forall|i: int, j: int|
            0 <= i < c.groups.len() && 0 <= j < c.groups[i].rules.len() ==> spec_all_rules().contains(
                #[trigger] c.groups[i].rules[j].0,
            ),
{
    let base = config_base(path);
    let c0 = ConfigView { path: Some(path), ..spec_recommended() };
    let built = match doc {
        ConfigDocumentView::Structured { global_ignores, rules, overrides } => structured_config(
            c0,
            global_ignores,
            rules,
            overrides,
            base,
        ),
        ConfigDocumentView::Flat(items) => with_flat_items(c0, items, base),
    };
    assert(spec_config_from_document(path, doc) == match built {
        Err(e) => Err(e),
        Ok(c) => match first_unknown_rule(c.groups) {
            Some(r) => Err((ConfigErrorKind::UnknownRule, r)),
            None => Ok(c),
        },
    });
    match built {
        Ok(c) => {
            if first_unknown_rule(c.groups) is None {
                lemma_known_rules(c.groups);
            }
        },
        Err(_) => {},
    }
}


impl Default for Config {
    /// The recommended preset.
    fn default() -> (r: Config)
        ensures
            r.deep_view() == spec_recommended(),
            r.wf(),
    {
        Config::recommended()
    }
}

} // verus!
