//! Diagnostics: what a rule reports, where, how severe, and how to fix it.
use vstd::prelude::*;
use crate::path_utils::{last_component, spec_last_component};
use crate::text::push_text;

verus! {

/// How severe a diagnostic is; `Off` disables a rule.
#[derive(Debug, Clone, Copy, PartialEq, Eq, Structural, PartialOrd, Ord)]
pub enum Severity {
    Off,
    Warn,
    Error,
}

impl DeepView for Severity {
    type V = Severity;

    open spec fn deep_view(&self) -> Severity {
        *self
    }
}

/// The rank of a severity: `Off` < `Warn` < `Error`.
pub open spec fn severity_rank(s: Severity) -> int {
    match s {
        Severity::Off => 0,
        Severity::Warn => 1,
        Severity::Error => 2,
    }
}

/// The lowercase name of a severity.
pub open spec fn spec_severity_name(s: Severity) -> Seq<char> {
    match s {
        Severity::Off => "off"@,
        Severity::Warn => "warn"@,
        Severity::Error => "error"@,
    }
}

impl Severity {
    pub fn as_str(self) -> (r: &'static str)
        ensures
            r@ == spec_severity_name(self),
    {
        match self {
            Self::Off => "off",
            Self::Warn => "warn",
            Self::Error => "error",
        }
    }

    /// The greater of two severities.
    pub fn max(self, other: Severity) -> (r: Severity)
        ensures
            r == (if severity_rank(self) >= severity_rank(other) { self } else { other }),
    {
        match (self, other) {
            (Severity::Error, _) => self,
            (_, Severity::Error) => other,
            (Severity::Warn, _) => self,
            (_, Severity::Warn) => other,
            _ => self,
        }
    }
}

/// Where a diagnostic points: a file or folder, and optionally a line and column.
#[derive(Debug, Clone, PartialEq, Eq)]
pub struct Location {
    pub path: String,
    pub line: Option<u32>,
    pub column: Option<u32>,
}

pub struct LocationView {
    pub path: Seq<char>,
    pub line: Option<u32>,
    pub column: Option<u32>,
}

impl DeepView for Location {
    type V = LocationView;

    open spec fn deep_view(&self) -> LocationView {
        LocationView { path: self.path@, line: self.line, column: self.column }
    }
}

impl Location {
    /// A location that names a path only.
    pub fn at(path: &str) -> (r: Location)
        ensures
            r.deep_view() == (LocationView { path: path@, line: None, column: None }),
    {
        Location { path: path.to_owned(), line: None, column: None }
    }

    pub fn duplicate(&self) -> (r: Location)
        ensures
            r.deep_view() == self.deep_view(),
    {
        Location { path: self.path.clone(), line: self.line, column: self.column }
    }
}

/// A change to the file system that resolves a diagnostic.
#[derive(Debug, Clone, PartialEq, Eq)]
pub enum Fix {
    Rename { path: String, new_name: String },
    CreateFile { path: String, content: String },
    CreateFolder { path: String },
    Delete { path: String },
    ModifyFile { path: String, content: String },
}

pub enum FixView {
    Rename { path: Seq<char>, new_name: Seq<char> },
    CreateFile { path: Seq<char>, content: Seq<char> },
    CreateFolder { path: Seq<char> },
    Delete { path: Seq<char> },
    ModifyFile { path: Seq<char>, content: Seq<char> },
}

impl DeepView for Fix {
    type V = FixView;

    open spec fn deep_view(&self) -> FixView {
        match self {
            Fix::Rename { path, new_name } => FixView::Rename { path: path@, new_name: new_name@ },
            Fix::CreateFile { path, content } => FixView::CreateFile {
                path: path@,
                content: content@,
            },
            Fix::CreateFolder { path } => FixView::CreateFolder { path: path@ },
            Fix::Delete { path } => FixView::Delete { path: path@ },
            Fix::ModifyFile { path, content } => FixView::ModifyFile {
                path: path@,
                content: content@,
            },
        }
    }
}

impl Fix {
    pub fn duplicate(&self) -> (r: Fix)
        ensures
            r.deep_view() == self.deep_view(),
    {
        match self {
            Fix::Rename { path, new_name } => Fix::Rename {
                path: path.clone(),
                new_name: new_name.clone(),
            },
            Fix::CreateFile { path, content } => Fix::CreateFile {
                path: path.clone(),
                content: content.clone(),
            },
            Fix::CreateFolder { path } => Fix::CreateFolder { path: path.clone() },
            Fix::Delete { path } => Fix::Delete { path: path.clone() },
            Fix::ModifyFile { path, content } => Fix::ModifyFile {
                path: path.clone(),
                content: content.clone(),
            },
        }
    }
}

/// A copy of a list of fixes.
pub fn duplicate_fixes(fixes: &Vec<Fix>) -> (r: Vec<Fix>)
    ensures
        r.deep_view() == fixes.deep_view(),
{
    let mut r: Vec<Fix> = Vec::new();
    let mut i: usize = 0;
    while i < fixes.len()
        invariant
            i <= fixes@.len(),
            r@.len() == i,
            forall|j: int| 0 <= j < i ==> r@[j].deep_view() == fixes@[j].deep_view(),
        decreases fixes.len() - i,
    {
        let f = fixes[i].duplicate();
        r.push(f);
        i = i + 1;
    }
    assert(r.deep_view() =~= fixes.deep_view());
    r
}

/// A problem that a rule found.
#[derive(Debug, Clone, PartialEq, Eq)]
pub struct Diagnostic {
    pub message: String,
    pub fixes: Vec<Fix>,
    pub location: Location,
    pub rule_name: String,
    pub severity: Severity,
}

pub struct DiagnosticView {
    pub message: Seq<char>,
    pub fixes: Seq<FixView>,
    pub location: LocationView,
    pub rule_name: Seq<char>,
    pub severity: Severity,
}

impl DeepView for Diagnostic {
    type V = DiagnosticView;

    open spec fn deep_view(&self) -> DiagnosticView {
        DiagnosticView {
            message: self.message@,
            fixes: self.fixes.deep_view(),
            location: self.location.deep_view(),
            rule_name: self.rule_name@,
            severity: self.severity,
        }
    }
}

/// The diagnostic that `Diagnostic::new` makes.
pub open spec fn new_diagnostic(rule_name: Seq<char>, message: Seq<char>, path: Seq<char>) -> DiagnosticView {
    DiagnosticView {
        message: message,
        fixes: Seq::empty(),
        location: LocationView { path: path, line: None, column: None },
        rule_name: rule_name,
        severity: Severity::Error,
    }
}

/// A diagnostic view with its fixes replaced.
pub open spec fn with_fixes_view(d: DiagnosticView, fixes: Seq<FixView>) -> DiagnosticView {
    DiagnosticView { fixes: fixes, ..d }
}

/// The documentation address of a rule: the rule's folder in the Steiger plugin repository, named by
/// the part of the rule name after its last `/`.
pub open spec fn spec_description_url(rule_name: Seq<char>) -> Seq<char> {
    "https://github.com/feature-sliced/steiger/tree/master/packages/steiger-plugin-fsd/src/"@
        + spec_last_component(rule_name)
}

impl Diagnostic {
    /// An error-level diagnostic of `rule_name` at `path`, with no fixes.
    pub fn new(rule_name: &str, message: &str, path: &str) -> (r: Diagnostic)
        ensures
            r.deep_view() == new_diagnostic(rule_name@, message@, path@),
    {
        let r = Diagnostic {
            message: message.to_owned(),
            fixes: Vec::new(),
            location: Location::at(path),
            rule_name: rule_name.to_owned(),
            severity: Severity::Error,
        };
        assert(r.fixes.deep_view() =~= Seq::<FixView>::empty());
        r
    }

    pub fn with_fixes(self, fixes: Vec<Fix>) -> (r: Diagnostic)
        ensures
            r.deep_view() == with_fixes_view(self.deep_view(), fixes.deep_view()),
    {
        let mut d = self;
        d.fixes = fixes;
        d
    }

    pub fn description_url(&self) -> (r: String)
        ensures
            r@ == spec_description_url(self.rule_name@),
    {
        let rule = last_component(self.rule_name.as_str());
        let mut r = String::new();
        push_text(
            &mut r,
            "https://github.com/feature-sliced/steiger/tree/master/packages/steiger-plugin-fsd/src/",
        );
        push_text(&mut r, rule.as_str());
        r
    }

    pub fn duplicate(&self) -> (r: Diagnostic)
        ensures
            r.deep_view() == self.deep_view(),
    {
        Diagnostic {
            message: self.message.clone(),
            fixes: duplicate_fixes(&self.fixes),
            location: self.location.duplicate(),
            rule_name: self.rule_name.clone(),
            severity: self.severity,
        }
    }
}

} // verus!
