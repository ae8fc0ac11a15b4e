//! A checked-in baseline: the diagnostics, by rule and path, that are
//! allowed while existing debt is paid off.
use vstd::prelude::*;
use crate::diagnostic::{Diagnostic, DiagnosticView};
use crate::order::{assoc_find, assoc_get, assoc_insert, assoc_put, set_insert, set_put};
use crate::path_utils::{forward_slashes, parent, slashes_forward, spec_parent, spec_strip_prefix, strip_prefix, trim_trailing_slashes};
use crate::rules::structural::contains_text;
use crate::text::{chars_of, string_of_range};

verus! {

/// A path as the baseline compares it: forward slashes, without a leading
/// `./`, without trailing slashes.
pub open spec fn spec_normalize_path(path: Seq<char>) -> Seq<char> {
    let n = slashes_forward(path);
    let s = if n.len() >= 2 && n[0] == '.' && n[1] == '/' {
        n.skip(2)
    } else {
        n
    };
    trim_trailing_slashes(s)
}

/// The form of `path` under which the baseline records it.
pub fn normalize_path(path: &str) -> (r: String)
    ensures
        r@ == spec_normalize_path(path@),
{
    let normalized = forward_slashes(path);
    let cs = chars_of(normalized.as_str());
    let start: usize = if cs.len() >= 2 && cs[0] == '.' && cs[1] == '/' { 2 } else { 0 };
    let mut end = cs.len();
    let ghost s = cs@.skip(start as int);
    assert(s.take(s.len() as int) =~= s);
    assert(s =~= (if cs@.len() >= 2 && cs@[0] == '.' && cs@[1] == '/' {
        cs@.skip(2)
    } else {
        cs@
    }));
    while end > start && cs[end - 1] == '/'
        invariant
            start <= end <= cs@.len(),
            s == cs@.skip(start as int),
            trim_trailing_slashes(s) == trim_trailing_slashes(s.take(end - start)),
        decreases end,
    {
        assert(s.take(end - start).drop_last() =~= s.take(end - start - 1));
        end = end - 1;
    }
    proof {
        if end > start {
            assert(s.take(end - start).last() == cs@[end - 1]);
        }
        assert(trim_trailing_slashes(s.take(end - start)) == s.take(end - start));
    }
    let r = string_of_range(&cs, start, end);
    assert(r@ =~= s.take(end - start));
    assert(cs@ == slashes_forward(path@));
    r
}

/// The allowed paths of each rule, by rule name.
pub type BaselineEntries = Seq<(Seq<char>, Seq<Seq<char>>)>;

/// The normalized paths of `paths`, as a set.
pub open spec fn path_set(paths: Seq<Seq<char>>) -> Seq<Seq<char>>
    decreases paths.len(),
{
    if paths.len() == 0 {
        Seq::empty()
    } else {
        set_put(path_set(paths.drop_last()), spec_normalize_path(paths.last()), false)
    }
}

/// The entries of a baseline file's content: each rule's paths normalized;
/// a later list for the same rule replaces an earlier one.
pub open spec fn baseline_entries(raw: Seq<(Seq<char>, Seq<Seq<char>>)>) -> BaselineEntries
    decreases raw.len(),
{
    if raw.len() == 0 {
        Seq::empty()
    } else {
        assoc_put(baseline_entries(raw.drop_last()), raw.last().0, path_set(raw.last().1), false)
    }
}

/// A baseline: the folder of its file, and the allowed paths of each rule.
#[derive(Debug)]
pub struct DiagnosticBaseline {
    pub base_directory: String,
    pub entries: Vec<(String, Vec<String>)>,
}

pub struct BaselineView {
    pub base_directory: Seq<char>,
    pub entries: BaselineEntries,
}

impl DeepView for DiagnosticBaseline {
    type V = BaselineView;

    open spec fn deep_view(&self) -> BaselineView {
        BaselineView { base_directory: self.base_directory@, entries: self.entries.deep_view() }
    }
}

/// Whether the baseline allows a diagnostic of `rule` at `path`: the path,
/// normalized, is listed for the rule, as written or relative to the
/// baseline's folder.
pub open spec fn spec_baseline_contains(b: BaselineView, rule: Seq<char>, path: Seq<char>) -> bool {
    match assoc_get(b.entries, rule) {
        None => false,
        Some(allowed) => allowed.contains(spec_normalize_path(path)) || match spec_strip_prefix(
            path,
            b.base_directory,
        ) {
            Some(rest) => allowed.contains(spec_normalize_path(rest)),
            None => false,
        },
    }
}

/// The diagnostics that the baseline does not allow, in order.
pub open spec fn spec_retain_new(b: BaselineView, ds: Seq<DiagnosticView>) -> Seq<DiagnosticView>
    decreases ds.len(),
{
    if ds.len() == 0 {
        Seq::empty()
    } else {
        let rest = spec_retain_new(b, ds.drop_last());
        if spec_baseline_contains(b, ds.last().rule_name, ds.last().location.path) {
            rest
        } else {
            rest.push(ds.last())
        }
    }
}

fn normalized_set(paths: &Vec<String>) -> (r: Vec<String>)
    ensures
        r.deep_view() == path_set(paths.deep_view()),
{
    let ghost pv = paths.deep_view();
    let mut r: Vec<String> = Vec::new();
    assert(r.deep_view() =~= path_set(pv.take(0)));
    let mut i: usize = 0;
    while i < paths.len()
        invariant
            i <= pv.len(),
            pv == paths.deep_view(),
            pv.len() == paths@.len(),
            r.deep_view() == path_set(pv.take(i as int)),
        decreases paths.len() - i,
    {
        assert(pv.take(i + 1).drop_last() =~= pv.take(i as int));
        assert(pv.take(i + 1).last() == paths@[i as int]@);
        set_insert(&mut r, normalize_path(paths[i].as_str()), false);
        i = i + 1;
    }
    assert(pv.take(pv.len() as int) =~= pv);
    r
}

/// The rule lists of a baseline file's text, in rule order, as `serde_json`
/// reads a JSON object of string lists; `None` when it rejects the text.
pub uninterp spec fn baseline_json(text: Seq<char>) -> Option<Seq<(Seq<char>, Seq<Seq<char>>)>>;

/// `serde_json::from_str::<BTreeMap<String, Vec<String>>>`, its map listed in
/// key order: the claim is only that the lists (or the refusal) are a
/// function of the text. Malformed text and too deep nesting come back as
/// errors.
#[verifier::external_body]
fn parse_baseline_json(text: &str) -> (r: Option<Vec<(String, Vec<String>)>>)
    ensures
        r.deep_view() == baseline_json(text@),
{
    match serde_json::from_str::<std::collections::BTreeMap<String, Vec<String>>>(text) {
        Ok(map) => Some(map.into_iter().collect()),
        Err(_) => None,
    }
}

impl DiagnosticBaseline {
    /// The baseline read from the file at `path` (canonical, so with a
    /// parent folder), whose content lists paths by rule name.
    pub fn new(path: &str, raw: &Vec<(String, Vec<String>)>) -> (r: DiagnosticBaseline)
        requires
            spec_parent(path@) is Some,
        ensures
            r.deep_view() == (BaselineView {
                base_directory: spec_parent(path@)->Some_0,
                entries: baseline_entries(raw.deep_view()),
            }),
    {
        let base_directory = match parent(path) {
            Some(d) => d,
            None => String::new(),
        };
        let ghost rv = raw.deep_view();
        let mut entries: Vec<(String, Vec<String>)> = Vec::new();
        assert(entries.deep_view() =~= baseline_entries(rv.take(0)));
        let mut i: usize = 0;
        while i < raw.len()
            invariant
                i <= rv.len(),
                rv == raw.deep_view(),
                rv.len() == raw@.len(),
                entries.deep_view() == baseline_entries(rv.take(i as int)),
            decreases raw.len() - i,
        {
            assert(rv.take(i + 1).drop_last() =~= rv.take(i as int));
            assert(rv.take(i + 1).last() == raw@[i as int].deep_view());
            let set = normalized_set(&raw[i].1);
            assoc_insert(&mut entries, raw[i].0.clone(), set, false);
            i = i + 1;
        }
        assert(rv.take(rv.len() as int) =~= rv);
        DiagnosticBaseline { base_directory, entries }
    }

    /// The baseline whose file, at `path`, holds `text`; `None` when the
    /// text is not a JSON object of string lists.
    pub fn from_text(path: &str, text: &str) -> (r: Option<DiagnosticBaseline>)
        requires
            spec_parent(path@) is Some,
        ensures
            match baseline_json(text@) {
                Some(raw) => r matches Some(b) && b.deep_view() == (BaselineView {
                    base_directory: spec_parent(path@)->Some_0,
                    entries: baseline_entries(raw),
                }),
                None => r is None,
            },
    {
        match parse_baseline_json(text) {
            Some(raw) => Some(DiagnosticBaseline::new(path, &raw)),
            None => None,
        }
    }

    /// Whether the baseline allows `diagnostic` (see `spec_baseline_contains`).
    pub fn contains(&self, diagnostic: &Diagnostic) -> (r: bool)
        ensures
            r == spec_baseline_contains(
                self.deep_view(),
                diagnostic.rule_name@,
                diagnostic.location.path@,
            ),
    {
        let k = match assoc_find(&self.entries, diagnostic.rule_name.as_str()) {
            None => {
                return false;
            },
            Some(k) => k,
        };
        let allowed = &self.entries[k].1;
        assert(self.entries.deep_view()[k as int].1 == allowed.deep_view());
        let absolute = normalize_path(diagnostic.location.path.as_str());
        if contains_text(allowed, absolute.as_str()) {
            return true;
        }
        match strip_prefix(diagnostic.location.path.as_str(), self.base_directory.as_str()) {
            Some(rest) => {
                let relative = normalize_path(rest.as_str());
                contains_text(allowed, relative.as_str())
            },
            None => false,
        }
    }

    /// The diagnostics that the baseline does not allow, in order.
    pub fn retain_new(&self, diagnostics: Vec<Diagnostic>) -> (r: Vec<Diagnostic>)
        ensures
            r.deep_view() == spec_retain_new(self.deep_view(), diagnostics.deep_view()),
    {
        let ghost dv = diagnostics.deep_view();
        let mut r: Vec<Diagnostic> = Vec::new();
        assert(r.deep_view() =~= spec_retain_new(self.deep_view(), dv.take(0)));
        let mut i: usize = 0;
        while i < diagnostics.len()
            invariant
                i <= dv.len(),
                dv == diagnostics.deep_view(),
                dv.len() == diagnostics@.len(),
                r.deep_view() == spec_retain_new(self.deep_view(), dv.take(i as int)),
            decreases diagnostics.len() - i,
        {
            assert(dv.take(i + 1).drop_last() =~= dv.take(i as int));
            assert(dv.take(i + 1).last() == diagnostics@[i as int].deep_view());
            if !self.contains(&diagnostics[i]) {
                let ghost b = r.deep_view();
                r.push(diagnostics[i].duplicate());
                assert(r.deep_view() =~= b.push(dv[i as int]));
            }
            i = i + 1;
        }
        assert(dv.take(dv.len() as int) =~= dv);
        r
    }
}


/// Only new diagnostics remain: a diagnostic is kept exactly when it is one
/// of the input and the baseline does not allow it.
pub proof fn lemma_retain_new_exact(b: BaselineView, ds: Seq<DiagnosticView>)
    ensures
        forall|d: DiagnosticView|
            #[trigger] spec_retain_new(b, ds).contains(d) <==> (ds.contains(d) && !spec_baseline_contains(
                b,
                d.rule_name,
                d.location.path,
            )),
    decreases ds.len(),
{
    if ds.len() > 0 {
        let t = ds.drop_last();
        lemma_retain_new_exact(b, t);
        let rest = spec_retain_new(b, t);
        assert forall|d: DiagnosticView|
            #[trigger] spec_retain_new(b, ds).contains(d) <==> (ds.contains(d) && !spec_baseline_contains(
                b,
                d.rule_name,
                d.location.path,
            )) by {
            let r = spec_retain_new(b, ds);
            if ds.contains(d) {
                let i = choose|i: int| 0 <= i < ds.len() && ds[i] == d;
                if i < ds.len() - 1 {
                    assert(t[i] == d);
                    assert(t.contains(d));
                }
            }
            if t.contains(d) {
                let i = choose|i: int| 0 <= i < t.len() && t[i] == d;
                assert(ds[i] == d);
            }
            if spec_baseline_contains(b, ds.last().rule_name, ds.last().location.path) {
                assert(r == rest);
            } else {
                assert(r == rest.push(ds.last()));
                if rest.contains(d) {
                    let i = choose|i: int| 0 <= i < rest.len() && rest[i] == d;
                    assert(r[i] == d);
                }
                if r.contains(d) {
                    let i = choose|i: int| 0 <= i < r.len() && r[i] == d;
                    if i < rest.len() {
                        assert(rest[i] == d);
                    }
                }
                assert(r[r.len() - 1] == ds.last());
            }
        }
    }
}

/// Fewer diagnostics never make new ones: when every diagnostic of `fewer`
/// is among `more`, every new diagnostic of `fewer` is a new one of `more`.
pub proof fn lemma_retain_new_monotone(b: BaselineView, fewer: Seq<DiagnosticView>, more: Seq<DiagnosticView>)
    requires
        forall|d: DiagnosticView| #[trigger] fewer.contains(d) ==> more.contains(d),
    ensures
        forall|d: DiagnosticView| #[trigger] spec_retain_new(b, fewer).contains(d) ==> spec_retain_new(b, more).contains(d),
{
    lemma_retain_new_exact(b, fewer);
    lemma_retain_new_exact(b, more);
}

/// The exit status of a run checked against a baseline: 1 when some
/// diagnostic is new, 0 otherwise.
pub open spec fn spec_baseline_status(b: BaselineView, ds: Seq<DiagnosticView>) -> u8 {
    if spec_retain_new(b, ds).len() > 0 {
        1
    } else {
        0
    }
}

/// The exit status once the new diagnostics are known: 1 when there are any.
pub fn new_diagnostics_status(new_diagnostics: &Vec<Diagnostic>) -> (r: u8)
    ensures
        r == (if new_diagnostics@.len() > 0 { 1u8 } else { 0u8 }),
{
    if new_diagnostics.len() > 0 {
        1
    } else {
        0
    }
}

/// A run against a baseline fails exactly when it finds a diagnostic whose
/// rule and path the baseline does not list.
pub proof fn lemma_baseline_status(b: BaselineView, ds: Seq<DiagnosticView>)
    ensures
        (spec_baseline_status(b, ds) == 1) <==> (exists|i: int|
            0 <= i < ds.len() && !spec_baseline_contains(b, (#[trigger] ds[i]).rule_name, ds[i].location.path)),
{
    lemma_retain_new_exact(b, ds);
    let r = spec_retain_new(b, ds);
    if r.len() > 0 {
        assert(r.contains(r[0]));
        let i = choose|i: int| 0 <= i < ds.len() && ds[i] == r[0];
        assert(!spec_baseline_contains(b, ds[i].rule_name, ds[i].location.path));
    }
    if exists|i: int| 0 <= i < ds.len() && !spec_baseline_contains(b, (#[trigger] ds[i]).rule_name, ds[i].location.path) {
        let i = choose|i: int| 0 <= i < ds.len() && !spec_baseline_contains(b, (#[trigger] ds[i]).rule_name, ds[i].location.path);
        assert(ds.contains(ds[i]));
        assert(r.contains(ds[i]));
    }
}

/// Paying off debt never fails a run: when a run passes against the
/// baseline, a run with only some of its diagnostics passes too.
pub proof fn lemma_baseline_status_reduction(b: BaselineView, fewer: Seq<DiagnosticView>, more: Seq<DiagnosticView>)
    requires
        forall|d: DiagnosticView| #[trigger] fewer.contains(d) ==> more.contains(d),
        spec_baseline_status(b, more) == 0,
    ensures
        spec_baseline_status(b, fewer) == 0,
{
    lemma_retain_new_monotone(b, fewer, more);
    let r = spec_retain_new(b, fewer);
    if r.len() > 0 {
        assert(r.contains(r[0]));
        assert(spec_retain_new(b, more).contains(r[0]));
    }
}

/// `ps` lists `x` once normalized.
pub open spec fn lists_path(ps: Seq<Seq<char>>, x: Seq<char>) -> bool {
    exists|k: int| 0 <= k < ps.len() && x == spec_normalize_path(#[trigger] ps[k])
}

/// `raw[i]` is the last list given for `rule`.
pub open spec fn last_list_for(raw: Seq<(Seq<char>, Seq<Seq<char>>)>, rule: Seq<char>, i: int) -> bool {
    &&& 0 <= i < raw.len()
    &&& raw[i].0 == rule
    &&& forall|j: int| i < j < raw.len() ==> (#[trigger] raw[j]).0 != rule
}

proof fn lemma_path_set(paths: Seq<Seq<char>>, x: Seq<char>)
    ensures
        path_set(paths).contains(x) <==> lists_path(paths, x),
    decreases paths.len(),
{
    if paths.len() > 0 {
        let t = paths.drop_last();
        lemma_path_set(t, x);
        crate::order::lemma_set_put_contains(path_set(t), spec_normalize_path(paths.last()), false);
        if lists_path(t, x) {
            let k = choose|k: int| 0 <= k < t.len() && x == spec_normalize_path(#[trigger] t[k]);
            assert(paths[k] == t[k]);
        }
        if lists_path(paths, x) {
            let k = choose|k: int| 0 <= k < paths.len() && x == spec_normalize_path(#[trigger] paths[k]);
            if k < t.len() {
                assert(t[k] == paths[k]);
            }
        }
        if x == spec_normalize_path(paths.last()) {
            assert(paths[paths.len() - 1] == paths.last());
        }
    }
}

/// A baseline lists, under each rule, the normalized paths of the last list
/// given for that rule, and nothing under a rule given no list.
pub proof fn lemma_baseline_listing(raw: Seq<(Seq<char>, Seq<Seq<char>>)>, rule: Seq<char>, x: Seq<char>)
    ensures
        assoc_get(baseline_entries(raw), rule) is None <==> forall|i: int| 0 <= i < raw.len() ==> (#[trigger] raw[i]).0 != rule,
        (assoc_get(baseline_entries(raw), rule) matches Some(allowed) && allowed.contains(x)) <==> exists|i: int|
            #[trigger] last_list_for(raw, rule, i) && lists_path(raw[i].1, x),
    decreases raw.len(),
{
    if raw.len() > 0 {
        let t = raw.drop_last();
        let n = raw.len() - 1;
        lemma_baseline_listing(t, rule, x);
        crate::order::lemma_assoc_get_put(baseline_entries(t), raw.last().0, path_set(raw.last().1), false, rule);
        assert(raw[n] == raw.last());
        if raw.last().0 == rule {
            lemma_path_set(raw.last().1, x);
            assert(last_list_for(raw, rule, n));
            if exists|i: int| #[trigger] last_list_for(raw, rule, i) && lists_path(raw[i].1, x) {
                let i = choose|i: int| #[trigger] last_list_for(raw, rule, i) && lists_path(raw[i].1, x);
                assert(i == n);
            }
        } else {
            assert forall|i: int| 0 <= i < t.len() implies (#[trigger] raw[i]).0 == t[i].0 by {}
            if exists|i: int| #[trigger] last_list_for(t, rule, i) && lists_path(t[i].1, x) {
                let i = choose|i: int| #[trigger] last_list_for(t, rule, i) && lists_path(t[i].1, x);
                assert(t[i] == raw[i]);
                assert forall|j: int| i < j < raw.len() implies (#[trigger] raw[j]).0 != rule by {
                    if j < n {
                        assert(t[j] == raw[j]);
                    }
                }
                assert(last_list_for(raw, rule, i));
            }
            if exists|i: int| #[trigger] last_list_for(raw, rule, i) && lists_path(raw[i].1, x) {
                let i = choose|i: int| #[trigger] last_list_for(raw, rule, i) && lists_path(raw[i].1, x);
                assert(i < n);
                assert(t[i] == raw[i]);
                assert forall|j: int| i < j < t.len() implies (#[trigger] t[j]).0 != rule by {
                    assert(t[j] == raw[j]);
                }
                assert(last_list_for(t, rule, i));
            }
            if forall|i: int| 0 <= i < t.len() ==> (#[trigger] t[i]).0 != rule {
                assert forall|i: int| 0 <= i < raw.len() implies (#[trigger] raw[i]).0 != rule by {
                    if i < n {
                        assert(t[i] == raw[i]);
                    }
                }
            }
            if forall|i: int| 0 <= i < raw.len() ==> (#[trigger] raw[i]).0 != rule {
                assert forall|i: int| 0 <= i < t.len() implies (#[trigger] t[i]).0 != rule by {
                    assert(t[i] == raw[i]);
                }
            }
        }
    }
}

} // verus!
