//! The rules that read the import graph: which layers and slices may import
//! which, how imports are written, and how much each slice is used.
use vstd::prelude::*;
use crate::diagnostic::{Diagnostic, DiagnosticView, new_diagnostic};
use crate::fsd::{
    before_first_dot, before_first_dot_of, cross_reference_token, IndexView, SourceLocation,
    SourceLocationView,
};
use crate::imports::{ImportGraph, ImportGraphView, ImportRecord, ImportRecordView};
use crate::order::{assoc_find, assoc_get, text_eq};
use crate::path_utils::{join, parent, path_file_stem, spec_file_stem, spec_join, spec_parent};
use crate::rules::structural::{first_slash, lemma_first_slash_bound};
use crate::rules::{FORBIDDEN_IMPORTS, IMPORT_LOCALITY, NO_CROSS_IMPORTS, NO_HIGHER_LEVEL_IMPORTS, NO_PUBLIC_API_SIDESTEP};
use crate::fsd::{spec_child_directories, spec_indexes, spec_is_sliced, spec_segments, EntryKind, Project, ProjectView};
use crate::path_utils::{spec_strip_prefix, strip_prefix};
use crate::rules::structural::contains_text;
use crate::rules::INSIGNIFICANT_SLICE;
use crate::order::{assoc_insert, assoc_put, set_insert, set_put};
use crate::text::cat5;
use crate::text::{cat3, chars_of, string_of_range};

verus! {

/// An import between two files of the layer structure: the importer's path,
/// its location, the import, and the location of the file it resolves to.
pub type ResolvedImportView = (Seq<char>, SourceLocationView, ImportRecordView, SourceLocationView);

pub type ResolvedImport = (String, SourceLocation, ImportRecord, SourceLocation);

/// The imports among `rs` that resolve to a file of the index.
pub open spec fn records_resolved(
    index: IndexView,
    sp: Seq<char>,
    s: SourceLocationView,
    rs: Seq<ImportRecordView>,
) -> Seq<ResolvedImportView>
    decreases rs.len(),
{
    if rs.len() == 0 {
        Seq::empty()
    } else {
        let rest = records_resolved(index, sp, s, rs.drop_last());
        match rs.last().resolved {
            Some(t) => match assoc_get(index, t) {
                Some(tl) => rest.push((sp, s, rs.last(), tl)),
                None => rest,
            },
            None => rest,
        }
    }
}

/// The imports of the graph whose importer and target are both in the index,
/// importer by importer in path order, then in the importer's order.
pub open spec fn spec_resolved_imports(g: ImportGraphView, index: IndexView) -> Seq<ResolvedImportView>
    decreases g.len(),
{
    if g.len() == 0 {
        Seq::empty()
    } else {
        let rest = spec_resolved_imports(g.drop_last(), index);
        match assoc_get(index, g.last().0) {
            Some(s) => rest + records_resolved(index, g.last().0, s, g.last().1),
            None => rest,
        }
    }
}

/// The diagnostics of `f` for each import, in order.
pub open spec fn each_import(
    is: Seq<ResolvedImportView>,
    f: spec_fn(ResolvedImportView) -> Seq<DiagnosticView>,
) -> Seq<DiagnosticView>
    decreases is.len(),
{
    if is.len() == 0 {
        Seq::empty()
    } else {
        each_import(is.drop_last(), f) + f(is.last())
    }
}

/// The position of a layer in the layer order, from `shared` up to `app`.
pub open spec fn spec_layer_position(n: Seq<char>) -> Option<int> {
    if n == "shared"@ {
        Some(0)
    } else if n == "entities"@ {
        Some(1)
    } else if n == "features"@ {
        Some(2)
    } else if n == "widgets"@ {
        Some(3)
    } else if n == "pages"@ {
        Some(4)
    } else if n == "app"@ {
        Some(5)
    } else {
        None
    }
}

/// Whether the target's layer lies above the source's.
pub open spec fn spec_is_higher_layer(s: SourceLocationView, t: SourceLocationView) -> bool {
    match (spec_layer_position(s.layer_name), spec_layer_position(t.layer_name)) {
        (Some(a), Some(b)) => a < b,
        _ => false,
    }
}

/// Whether a path names an index file: its stem, up to the first dot, is `index`.
pub open spec fn spec_is_index_path(p: Seq<char>) -> bool {
    match spec_file_stem(p) {
        Some(stem) => before_first_dot(stem) == "index"@,
        None => false,
    }
}

/// Whether an import between two slices goes through the target's public
/// API for the importing slice: `@x/<source slice>` below the target slice,
/// as a file or as a folder's index.
pub open spec fn spec_is_cross_import_public_api(
    rec: ImportRecordView,
    s: SourceLocationView,
    t: SourceLocationView,
) -> bool {
    match (rec.resolved, s.slice_name, t.slice_path) {
        (Some(resolved), Some(source_slice), Some(target_slice_path)) => {
            let parent = match spec_parent(resolved) {
                Some(d) => d,
                None => Seq::empty(),
            };
            if spec_is_index_path(resolved) {
                parent == spec_join(spec_join(target_slice_path, cross_reference_token()), source_slice)
            } else {
                spec_file_stem(resolved) == Some(source_slice) && parent == spec_join(
                    target_slice_path,
                    cross_reference_token(),
                )
            }
        },
        _ => false,
    }
}

pub open spec fn msg_cross_import(slice: Seq<char>) -> Seq<char> {
    "Forbidden cross-import from slice \""@ + slice + "\"."@
}

pub open spec fn msg_higher_layer(layer: Seq<char>) -> Seq<char> {
    "Forbidden import from higher layer \""@ + layer + "\"."@
}

/// An import from one slice into another slice of the same layer, not
/// through the public API for the importing slice.
pub open spec fn is_forbidden_cross(i: ResolvedImportView) -> bool {
    &&& i.1.layer_name == i.3.layer_name
    &&& i.1.slice_name != i.3.slice_name
    &&& i.1.slice_name is Some
    &&& i.3.slice_name is Some
    &&& !spec_is_cross_import_public_api(i.2, i.1, i.3)
}

pub open spec fn target_slice(i: ResolvedImportView) -> Seq<char> {
    match i.3.slice_name {
        Some(n) => n,
        None => Seq::empty(),
    }
}

/// `fsd/forbidden-imports` for one import: a cross-import between slices,
/// or an import from a higher layer.
pub open spec fn forbidden_one(i: ResolvedImportView) -> Seq<DiagnosticView> {
    if i.1.layer_name == i.3.layer_name && i.1.slice_name != i.3.slice_name {
        if is_forbidden_cross(i) {
            seq![new_diagnostic(FORBIDDEN_IMPORTS@, msg_cross_import(target_slice(i)), i.0)]
        } else {
            Seq::empty()
        }
    } else if spec_is_higher_layer(i.1, i.3) {
        seq![new_diagnostic(FORBIDDEN_IMPORTS@, msg_higher_layer(i.3.layer_name), i.0)]
    } else {
        Seq::empty()
    }
}

/// `fsd/no-cross-imports` for one import.
pub open spec fn no_cross_one(i: ResolvedImportView) -> Seq<DiagnosticView> {
    if is_forbidden_cross(i) {
        seq![new_diagnostic(NO_CROSS_IMPORTS@, msg_cross_import(target_slice(i)), i.0)]
    } else {
        Seq::empty()
    }
}

/// `fsd/no-higher-level-imports` for one import.
pub open spec fn higher_one(i: ResolvedImportView) -> Seq<DiagnosticView> {
    if spec_is_higher_layer(i.1, i.3) {
        seq![new_diagnostic(NO_HIGHER_LEVEL_IMPORTS@, msg_higher_layer(i.3.layer_name), i.0)]
    } else {
        Seq::empty()
    }
}

/// The first `/`-separated piece of `s`.
pub open spec fn first_piece(s: Seq<char>) -> Seq<char> {
    if first_slash(s) < 0 {
        s
    } else {
        s.take(first_slash(s))
    }
}

pub open spec fn msg_not_relative(specifier: Seq<char>) -> Seq<char> {
    "Import from \""@ + specifier + "\" should not be relative."@
}

pub open spec fn msg_relative(specifier: Seq<char>) -> Seq<char> {
    "Import from \""@ + specifier + "\" should be relative."@
}

/// `fsd/import-locality` for one import: a relative import must stay inside
/// its slice, and an import inside a slice must be relative.
pub open spec fn locality_one(i: ResolvedImportView) -> Seq<DiagnosticView> {
    let fc = first_piece(i.2.specifier);
    let relative = fc == "."@ || fc == ".."@;
    let same_slice = i.1.layer_name == i.3.layer_name && i.1.slice_name == i.3.slice_name;
    if relative && !same_slice {
        seq![new_diagnostic(IMPORT_LOCALITY@, msg_not_relative(i.2.specifier), i.0)]
    } else if !relative && same_slice {
        seq![new_diagnostic(IMPORT_LOCALITY@, msg_relative(i.2.specifier), i.0)]
    } else {
        Seq::empty()
    }
}


pub proof fn lemma_each_import_step(
    is: Seq<ResolvedImportView>,
    f: spec_fn(ResolvedImportView) -> Seq<DiagnosticView>,
    j: int,
)
    requires
        0 <= j < is.len(),
    ensures
        each_import(is.take(j + 1), f) == each_import(is.take(j), f) + f(is[j]),
{
    assert(is.take(j + 1).drop_last() =~= is.take(j));
}

/// The imports of `rs` that resolve into the index, appended to `out`.
fn push_records_resolved(
    index: &Vec<(String, SourceLocation)>,
    sp: &String,
    s: &SourceLocation,
    rs: &Vec<ImportRecord>,
    out: &mut Vec<ResolvedImport>,
)
    ensures
        final(out).deep_view() == old(out).deep_view() + records_resolved(
            index.deep_view(),
            sp@,
            s.deep_view(),
            rs.deep_view(),
        ),
{
    let ghost start = out.deep_view();
    let ghost rv = rs.deep_view();
    let mut j: usize = 0;
    assert(records_resolved(index.deep_view(), sp@, s.deep_view(), rv.take(0)) =~= Seq::<ResolvedImportView>::empty());
    assert(out.deep_view() =~= start + Seq::<ResolvedImportView>::empty());
    while j < rs.len()
        invariant
            j <= rs@.len(),
            rv == rs.deep_view(),
            out.deep_view() == start + records_resolved(index.deep_view(), sp@, s.deep_view(), rv.take(j as int)),
        decreases rs.len() - j,
    {
        assert(rv.take(j + 1).drop_last() =~= rv.take(j as int));
        assert(rv.take(j + 1).last() == rs@[j as int].deep_view());
        match &rs[j].resolved {
            Some(t) => match assoc_find(index, t.as_str()) {
                Some(k) => {
                    let ghost before = out.deep_view();
                    let item = (sp.clone(), s.duplicate(), rs[j].duplicate(), index[k].1.duplicate());
                    out.push(item);
                    assert(out.deep_view() =~= before.push(
                        (sp@, s.deep_view(), rv[j as int], index.deep_view()[k as int].1),
                    ));
                },
                None => {},
            },
            None => {},
        }
        j = j + 1;
    }
    assert(rv.take(rv.len() as int) =~= rv);
}

/// The imports of `graph` between files of `index` (see `spec_resolved_imports`).
pub fn resolved_internal_imports(graph: &ImportGraph, index: &Vec<(String, SourceLocation)>) -> (r: Vec<ResolvedImport>)
    ensures
        r.deep_view() == spec_resolved_imports(graph.deep_view(), index.deep_view()),
{
    let ghost gv = graph.deep_view();
    let mut r: Vec<ResolvedImport> = Vec::new();
    assert(r.deep_view() =~= spec_resolved_imports(gv.take(0), index.deep_view()));
    let mut i: usize = 0;
    while i < graph.imports.len()
        invariant
            i <= gv.len(),
            gv == graph.deep_view(),
            gv.len() == graph.imports@.len(),
            r.deep_view() == spec_resolved_imports(gv.take(i as int), index.deep_view()),
        decreases graph.imports.len() - i,
    {
        assert(gv.take(i + 1).drop_last() =~= gv.take(i as int));
        assert(gv.take(i + 1).last() == graph.imports@[i as int].deep_view());
        match assoc_find(index, graph.imports[i].0.as_str()) {
            Some(k) => {
                push_records_resolved(index, &graph.imports[i].0, &index[k].1, &graph.imports[i].1, &mut r);
            },
            None => {},
        }
        i = i + 1;
    }
    assert(gv.take(gv.len() as int) =~= gv);
    r
}

/// What the import rules read of the import graph: the graph, the index of
/// source locations, and the imports between files of that index.
pub struct ImportAnalysis<'a> {
    pub graph: &'a ImportGraph,
    pub index: &'a Vec<(String, SourceLocation)>,
    pub resolved: Vec<ResolvedImport>,
}

impl<'a> ImportAnalysis<'a> {
    pub open spec fn wf(&self) -> bool {
        self.resolved.deep_view() == spec_resolved_imports(self.graph.deep_view(), self.index.deep_view())
    }

    pub fn new(graph: &'a ImportGraph, index: &'a Vec<(String, SourceLocation)>) -> (r: ImportAnalysis<'a>)
        ensures
            r.wf(),
            r.graph == graph,
            r.index == index,
    {
        let resolved = resolved_internal_imports(graph, index);
        ImportAnalysis { graph, index, resolved }
    }
}

fn opt_eq(a: &Option<String>, b: &Option<String>) -> (r: bool)
    ensures
        r == (a.deep_view() == b.deep_view()),
{
    match (a, b) {
        (Some(x), Some(y)) => text_eq(x.as_str(), y.as_str()),
        (None, None) => true,
        _ => false,
    }
}

fn layer_position(n: &str) -> (r: Option<usize>)
    ensures
        match r {
            Some(k) => spec_layer_position(n@) == Some(k as int),
            None => spec_layer_position(n@) is None,
        },
{
    if text_eq(n, "shared") {
        Some(0)
    } else if text_eq(n, "entities") {
        Some(1)
    } else if text_eq(n, "features") {
        Some(2)
    } else if text_eq(n, "widgets") {
        Some(3)
    } else if text_eq(n, "pages") {
        Some(4)
    } else if text_eq(n, "app") {
        Some(5)
    } else {
        None
    }
}

pub fn is_higher_layer(source: &SourceLocation, target: &SourceLocation) -> (r: bool)
    ensures
        r == spec_is_higher_layer(source.deep_view(), target.deep_view()),
{
    match (layer_position(source.layer_name.as_str()), layer_position(target.layer_name.as_str())) {
        (Some(a), Some(b)) => a < b,
        _ => false,
    }
}

pub fn is_index_path(path: &str) -> (r: bool)
    ensures
        r == spec_is_index_path(path@),
{
    match path_file_stem(path) {
        Some(stem) => {
            let part = before_first_dot_of(stem.as_str());
            text_eq(part.as_str(), "index")
        },
        None => false,
    }
}

pub fn is_cross_import_public_api(record: &ImportRecord, source: &SourceLocation, target: &SourceLocation) -> (r: bool)
    ensures
        r == spec_is_cross_import_public_api(record.deep_view(), source.deep_view(), target.deep_view()),
{
    match (&record.resolved, &source.slice_name, &target.slice_path) {
        (Some(resolved), Some(source_slice), Some(target_slice_path)) => {
            let parent_dir = match parent(resolved.as_str()) {
                Some(d) => d,
                None => String::new(),
            };
            let cross = join(target_slice_path.as_str(), "@x");
            assert(cross_reference_token() == "@x"@);
            if is_index_path(resolved.as_str()) {
                let expected = join(cross.as_str(), source_slice.as_str());
                text_eq(parent_dir.as_str(), expected.as_str())
            } else {
                let stem_ok = match path_file_stem(resolved.as_str()) {
                    Some(stem) => text_eq(stem.as_str(), source_slice.as_str()),
                    None => false,
                };
                stem_ok && text_eq(parent_dir.as_str(), cross.as_str())
            }
        },
        _ => false,
    }
}

fn is_forbidden_cross_exec(i: &ResolvedImport) -> (r: bool)
    ensures
        r == is_forbidden_cross(i.deep_view()),
{
    text_eq(i.1.layer_name.as_str(), i.3.layer_name.as_str()) && !opt_eq(&i.1.slice_name, &i.3.slice_name)
        && i.1.slice_name.is_some() && i.3.slice_name.is_some() && !is_cross_import_public_api(
        &i.2,
        &i.1,
        &i.3,
    )
}

fn target_slice_exec(i: &ResolvedImport) -> (r: String)
    ensures
        r@ == target_slice(i.deep_view()),
{
    match &i.3.slice_name {
        Some(n) => n.clone(),
        None => String::new(),
    }
}

pub fn forbidden_imports(imports: &Vec<ResolvedImport>) -> (r: Vec<Diagnostic>)
    ensures
        r.deep_view() == each_import(imports.deep_view(), |i: ResolvedImportView| forbidden_one(i)),
{
    let ghost iv = imports.deep_view();
    let ghost f = |i: ResolvedImportView| forbidden_one(i);
    let mut r: Vec<Diagnostic> = Vec::new();
    assert(r.deep_view() =~= each_import(iv.take(0), f));
    let mut j: usize = 0;
    while j < imports.len()
        invariant
            j <= iv.len(),
            iv == imports.deep_view(),
            iv.len() == imports@.len(),
            f == (|i: ResolvedImportView| forbidden_one(i)),
            r.deep_view() == each_import(iv.take(j as int), f),
        decreases imports.len() - j,
    {
        proof {
            lemma_each_import_step(iv, f, j as int);
        }
        let it = &imports[j];
        assert(iv[j as int] == it.deep_view());
        let ghost before = r.deep_view();
        if text_eq(it.1.layer_name.as_str(), it.3.layer_name.as_str()) && !opt_eq(&it.1.slice_name, &it.3.slice_name) {
            if is_forbidden_cross_exec(it) {
                let name = target_slice_exec(it);
                let m = cat3("Forbidden cross-import from slice \"", name.as_str(), "\".");
                r.push(Diagnostic::new(FORBIDDEN_IMPORTS, m.as_str(), it.0.as_str()));
            }
        } else if is_higher_layer(&it.1, &it.3) {
            let m = cat3("Forbidden import from higher layer \"", it.3.layer_name.as_str(), "\".");
            r.push(Diagnostic::new(FORBIDDEN_IMPORTS, m.as_str(), it.0.as_str()));
        }
        assert(r.deep_view() =~= before + forbidden_one(iv[j as int]));
        j = j + 1;
    }
    assert(iv.take(iv.len() as int) =~= iv);
    r
}

pub fn no_cross_imports(imports: &Vec<ResolvedImport>) -> (r: Vec<Diagnostic>)
    ensures
        r.deep_view() == each_import(imports.deep_view(), |i: ResolvedImportView| no_cross_one(i)),
{
    let ghost iv = imports.deep_view();
    let ghost f = |i: ResolvedImportView| no_cross_one(i);
    let mut r: Vec<Diagnostic> = Vec::new();
    assert(r.deep_view() =~= each_import(iv.take(0), f));
    let mut j: usize = 0;
    while j < imports.len()
        invariant
            j <= iv.len(),
            iv == imports.deep_view(),
            iv.len() == imports@.len(),
            f == (|i: ResolvedImportView| no_cross_one(i)),
            r.deep_view() == each_import(iv.take(j as int), f),
        decreases imports.len() - j,
    {
        proof {
            lemma_each_import_step(iv, f, j as int);
        }
        let it = &imports[j];
        assert(iv[j as int] == it.deep_view());
        let ghost before = r.deep_view();
        if is_forbidden_cross_exec(it) {
            let name = target_slice_exec(it);
            let m = cat3("Forbidden cross-import from slice \"", name.as_str(), "\".");
            r.push(Diagnostic::new(NO_CROSS_IMPORTS, m.as_str(), it.0.as_str()));
        }
        assert(r.deep_view() =~= before + no_cross_one(iv[j as int]));
        j = j + 1;
    }
    assert(iv.take(iv.len() as int) =~= iv);
    r
}

pub fn no_higher_level_imports(imports: &Vec<ResolvedImport>) -> (r: Vec<Diagnostic>)
    ensures
        r.deep_view() == each_import(imports.deep_view(), |i: ResolvedImportView| higher_one(i)),
{
    let ghost iv = imports.deep_view();
    let ghost f = |i: ResolvedImportView| higher_one(i);
    let mut r: Vec<Diagnostic> = Vec::new();
    assert(r.deep_view() =~= each_import(iv.take(0), f));
    let mut j: usize = 0;
    while j < imports.len()
        invariant
            j <= iv.len(),
            iv == imports.deep_view(),
            iv.len() == imports@.len(),
            f == (|i: ResolvedImportView| higher_one(i)),
            r.deep_view() == each_import(iv.take(j as int), f),
        decreases imports.len() - j,
    {
        proof {
            lemma_each_import_step(iv, f, j as int);
        }
        let it = &imports[j];
        assert(iv[j as int] == it.deep_view());
        let ghost before = r.deep_view();
        if is_higher_layer(&it.1, &it.3) {
            let m = cat3("Forbidden import from higher layer \"", it.3.layer_name.as_str(), "\".");
            r.push(Diagnostic::new(NO_HIGHER_LEVEL_IMPORTS, m.as_str(), it.0.as_str()));
        }
        assert(r.deep_view() =~= before + higher_one(iv[j as int]));
        j = j + 1;
    }
    assert(iv.take(iv.len() as int) =~= iv);
    r
}

/// The first `/`-separated piece of `s` (see `first_piece`).
pub fn first_piece_of(s: &str) -> (r: String)
    ensures
        r@ == first_piece(s@),
{
    let cs = chars_of(s);
    proof {
        lemma_first_slash_bound(cs@);
    }
    let mut i: usize = 0;
    while i < cs.len() && cs[i] != '/'
        invariant
            i <= cs@.len(),
            cs@ == s@,
            forall|j: int| 0 <= j < i ==> cs@[j] != '/',
        decreases cs.len() - i,
    {
        i = i + 1;
    }
    proof {
        crate::rules::structural::lemma_first_slash_at(cs@, i as int);
    }
    string_of_range(&cs, 0, i)
}

pub fn import_locality(imports: &Vec<ResolvedImport>) -> (r: Vec<Diagnostic>)
    ensures
        r.deep_view() == each_import(imports.deep_view(), |i: ResolvedImportView| locality_one(i)),
{
    let ghost iv = imports.deep_view();
    let ghost f = |i: ResolvedImportView| locality_one(i);
    let mut r: Vec<Diagnostic> = Vec::new();
    assert(r.deep_view() =~= each_import(iv.take(0), f));
    let mut j: usize = 0;
    while j < imports.len()
        invariant
            j <= iv.len(),
            iv == imports.deep_view(),
            iv.len() == imports@.len(),
            f == (|i: ResolvedImportView| locality_one(i)),
            r.deep_view() == each_import(iv.take(j as int), f),
        decreases imports.len() - j,
    {
        proof {
            lemma_each_import_step(iv, f, j as int);
        }
        let it = &imports[j];
        assert(iv[j as int] == it.deep_view());
        let ghost before = r.deep_view();
        let fc = first_piece_of(it.2.specifier.as_str());
        let relative = text_eq(fc.as_str(), ".") || text_eq(fc.as_str(), "..");
        let same_slice = text_eq(it.1.layer_name.as_str(), it.3.layer_name.as_str()) && opt_eq(
            &it.1.slice_name,
            &it.3.slice_name,
        );
        if relative && !same_slice {
            let m = cat3("Import from \"", it.2.specifier.as_str(), "\" should not be relative.");
            r.push(Diagnostic::new(IMPORT_LOCALITY, m.as_str(), it.0.as_str()));
        } else if !relative && same_slice {
            let m = cat3("Import from \"", it.2.specifier.as_str(), "\" should be relative.");
            r.push(Diagnostic::new(IMPORT_LOCALITY, m.as_str(), it.0.as_str()));
        }
        assert(r.deep_view() =~= before + locality_one(iv[j as int]));
        j = j + 1;
    }
    assert(iv.take(iv.len() as int) =~= iv);
    r
}


pub open spec fn msg_sidestep(specifier: Seq<char>) -> Seq<char> {
    "Forbidden sidestep of public API when importing from \""@ + specifier + "\"."@
}

pub open spec fn sidestep_diag(i: ResolvedImportView) -> DiagnosticView {
    new_diagnostic(NO_PUBLIC_API_SIDESTEP@, msg_sidestep(i.2.specifier), i.0)
}

/// `fsd/no-public-api-sidestep` for one import. Within a slice, or within
/// an unsliced layer, anything goes. Into a sliced layer, an import must
/// name the slice itself (or its `@x` folder), not one of its segments.
/// Into an unsliced layer, an import that reaches into a folder segment
/// must take that segment's index; in `shared/ui` and `shared/lib` the
/// index of the top-level folder of the segment suffices.
pub open spec fn sidestep_one(p: ProjectView, i: ResolvedImportView) -> Seq<DiagnosticView> {
    let s = i.1;
    let t = i.3;
    if s.layer_name == t.layer_name && (!spec_is_sliced(t.layer_name) || s.slice_name == t.slice_name) {
        Seq::empty()
    } else if spec_is_sliced(t.layer_name) {
        match t.segment_name {
            Some(n) => if n != cross_reference_token() {
                seq![sidestep_diag(i)]
            } else {
                Seq::empty()
            },
            None => Seq::empty(),
        }
    } else {
        match t.segment_name {
            None => Seq::empty(),
            Some(seg_name) => match assoc_get(spec_segments(p, t.layer_path), seg_name) {
                None => Seq::empty(),
                Some(seg) => match i.2.resolved {
                    None => Seq::empty(),
                    Some(res) => if seg.kind != EntryKind::Folder || spec_indexes(p, seg.path).contains(res) {
                        Seq::empty()
                    } else if t.layer_name == "shared"@ && (seg_name == "ui"@ || seg_name == "lib"@) {
                        match spec_strip_prefix(res, seg.path) {
                            None => Seq::empty(),
                            Some(rest) => if rest.len() == 0 {
                                Seq::empty()
                            } else {
                                let top_level = spec_join(seg.path, first_piece(rest));
                                if spec_child_directories(p, seg.path).contains(top_level)
                                    && !spec_indexes(p, top_level).contains(res) {
                                    seq![sidestep_diag(i)]
                                } else {
                                    Seq::empty()
                                }
                            },
                        }
                    } else {
                        seq![sidestep_diag(i)]
                    },
                },
            },
        }
    }
}

fn sidestep_diagnostic(i: &ResolvedImport) -> (r: Diagnostic)
    ensures
        r.deep_view() == sidestep_diag(i.deep_view()),
{
    let m = cat3("Forbidden sidestep of public API when importing from \"", i.2.specifier.as_str(), "\".");
    Diagnostic::new(NO_PUBLIC_API_SIDESTEP, m.as_str(), i.0.as_str())
}

fn sidestep_exec(project: &Project, it: &ResolvedImport) -> (r: Vec<Diagnostic>)
    requires
        project.wf(),
    ensures
        r.deep_view() == sidestep_one(project.deep_view(), it.deep_view()),
{
    let mut r: Vec<Diagnostic> = Vec::new();
    let s = &it.1;
    let t = &it.3;
    if text_eq(s.layer_name.as_str(), t.layer_name.as_str()) && (!Project::is_sliced(t.layer_name.as_str())
        || opt_eq(&s.slice_name, &t.slice_name)) {
        assert(r.deep_view() =~= sidestep_one(project.deep_view(), it.deep_view()));
        return r;
    }
    if Project::is_sliced(t.layer_name.as_str()) {
        match &t.segment_name {
            Some(n) => {
                assert(cross_reference_token() == "@x"@);
                if !text_eq(n.as_str(), "@x") {
                    r.push(sidestep_diagnostic(it));
                }
            },
            None => {},
        }
        assert(r.deep_view() =~= sidestep_one(project.deep_view(), it.deep_view()));
        return r;
    }
    let seg_name = match &t.segment_name {
        None => {
            assert(r.deep_view() =~= sidestep_one(project.deep_view(), it.deep_view()));
            return r;
        },
        Some(n) => n,
    };
    let segments = project.segments(t.layer_path.as_str());
    let k = match assoc_find(&segments, seg_name.as_str()) {
        None => {
            assert(r.deep_view() =~= sidestep_one(project.deep_view(), it.deep_view()));
            return r;
        },
        Some(k) => k,
    };
    let seg = &segments[k].1;
    assert(segments.deep_view()[k as int].1 == seg.deep_view());
    let res = match &it.2.resolved {
        None => {
            assert(r.deep_view() =~= sidestep_one(project.deep_view(), it.deep_view()));
            return r;
        },
        Some(res) => res,
    };
    if seg.kind != EntryKind::Folder || contains_text(&project.indexes(seg.path.as_str()), res.as_str()) {
        assert(r.deep_view() =~= sidestep_one(project.deep_view(), it.deep_view()));
        return r;
    }
    if text_eq(t.layer_name.as_str(), "shared") && (text_eq(seg_name.as_str(), "ui") || text_eq(
        seg_name.as_str(),
        "lib",
    )) {
        match strip_prefix(res.as_str(), seg.path.as_str()) {
            None => {},
            Some(rest) => {
                if !rest.as_str().is_empty() {
                    let top = first_piece_of(rest.as_str());
                    let top_level = join(seg.path.as_str(), top.as_str());
                    if contains_text(&project.child_directories(seg.path.as_str()), top_level.as_str())
                        && !contains_text(&project.indexes(top_level.as_str()), res.as_str()) {
                        r.push(sidestep_diagnostic(it));
                    }
                }
            },
        }
    } else {
        r.push(sidestep_diagnostic(it));
    }
    assert(r.deep_view() =~= sidestep_one(project.deep_view(), it.deep_view()));
    r
}

pub fn no_public_api_sidestep(project: &Project, imports: &Vec<ResolvedImport>) -> (r: Vec<Diagnostic>)
    requires
        project.wf(),
    ensures
        r.deep_view() == each_import(
            imports.deep_view(),
            |i: ResolvedImportView| sidestep_one(project.deep_view(), i),
        ),
{
    let ghost iv = imports.deep_view();
    let ghost pv = project.deep_view();
    let ghost f = |i: ResolvedImportView| sidestep_one(pv, i);
    let mut r: Vec<Diagnostic> = Vec::new();
    assert(r.deep_view() =~= each_import(iv.take(0), f));
    let mut j: usize = 0;
    while j < imports.len()
        invariant
            j <= iv.len(),
            iv == imports.deep_view(),
            iv.len() == imports@.len(),
            project.wf(),
            pv == project.deep_view(),
            f == (|i: ResolvedImportView| sidestep_one(pv, i)),
            r.deep_view() == each_import(iv.take(j as int), f),
        decreases imports.len() - j,
    {
        proof {
            lemma_each_import_step(iv, f, j as int);
        }
        assert(iv[j as int] == imports@[j as int].deep_view());
        let ghost before = r.deep_view();
        let d = sidestep_exec(project, &imports[j]);
        let mut k: usize = 0;
        while k < d.len()
            invariant
                k <= d@.len(),
                r.deep_view() == before + d.deep_view().take(k as int),
            decreases d.len() - k,
        {
            let ghost b2 = r.deep_view();
            r.push(d[k].duplicate());
            assert(r.deep_view() =~= b2.push(d.deep_view()[k as int]));
            assert(d.deep_view().take(k + 1) =~= d.deep_view().take(k as int).push(d.deep_view()[k as int]));
            k = k + 1;
        }
        assert(d.deep_view().take(d@.len() as int) =~= d.deep_view());
        j = j + 1;
    }
    assert(iv.take(iv.len() as int) =~= iv);
    r
}


/// The key under which a location's slice is counted: `layer/slice`, or
/// the layer alone outside slices.
pub open spec fn spec_location_key(l: SourceLocationView) -> Seq<char> {
    match l.slice_name {
        None => l.layer_name,
        Some(s) => l.layer_name + "/"@ + s,
    }
}

/// The folder that a location's key stands for: its slice, or its layer.
pub open spec fn spec_location_path(l: SourceLocationView) -> Seq<char> {
    match l.slice_path {
        Some(p) => p,
        None => l.layer_path,
    }
}

pub fn location_key(location: &SourceLocation) -> (r: String)
    ensures
        r@ == spec_location_key(location.deep_view()),
{
    match &location.slice_name {
        None => location.layer_name.clone(),
        Some(s) => cat3(location.layer_name.as_str(), "/", s.as_str()),
    }
}

pub fn location_path(location: &SourceLocation) -> (r: String)
    ensures
        r@ == spec_location_path(location.deep_view()),
{
    match &location.slice_path {
        Some(p) => p.clone(),
        None => location.layer_path.clone(),
    }
}

/// For each key, the keys of the slices that import it; and for each key,
/// its folder. Keys are in string order.
pub type UsageView = (Seq<(Seq<char>, Seq<Seq<char>>)>, Seq<(Seq<char>, Seq<char>)>);

/// `m` with `(k, v)` added, unless `k` is there already.
pub open spec fn put_absent(m: Seq<(Seq<char>, Seq<char>)>, k: Seq<char>, v: Seq<char>) -> Seq<(Seq<char>, Seq<char>)> {
    if assoc_get(m, k) is Some {
        m
    } else {
        assoc_put(m, k, v, false)
    }
}

pub open spec fn refs_of(m: Seq<(Seq<char>, Seq<Seq<char>>)>, k: Seq<char>) -> Seq<Seq<char>> {
    match assoc_get(m, k) {
        Some(v) => v,
        None => Seq::empty(),
    }
}

/// `m` with `source_key` among the importers of `target_key`.
pub open spec fn add_reference(
    m: Seq<(Seq<char>, Seq<Seq<char>>)>,
    target_key: Seq<char>,
    source_key: Seq<char>,
) -> Seq<(Seq<char>, Seq<Seq<char>>)> {
    assoc_put(m, target_key, set_put(refs_of(m, target_key), source_key, false), false)
}

/// `m` with an entry for `k`, empty unless there is one already.
pub open spec fn ensure_entry(m: Seq<(Seq<char>, Seq<Seq<char>>)>, k: Seq<char>) -> Seq<(Seq<char>, Seq<Seq<char>>)> {
    if assoc_get(m, k) is Some {
        m
    } else {
        assoc_put(m, k, Seq::empty(), false)
    }
}

/// One import of a file at `source`: an import into another layer counts
/// the source's key among the importers of the target's key.
pub open spec fn usage_record(
    index: IndexView,
    st: UsageView,
    source: SourceLocationView,
    skey: Seq<char>,
    rec: ImportRecordView,
) -> UsageView {
    match rec.resolved {
        None => st,
        Some(t) => match assoc_get(index, t) {
            None => st,
            Some(target) => if source.layer_name == target.layer_name {
                st
            } else {
                let tkey = spec_location_key(target);
                let locs = put_absent(st.1, tkey, spec_location_path(target));
                let refs = if skey != tkey {
                    add_reference(st.0, tkey, skey)
                } else {
                    st.0
                };
                (refs, locs)
            },
        },
    }
}

pub open spec fn usage_records(
    index: IndexView,
    st: UsageView,
    source: SourceLocationView,
    skey: Seq<char>,
    rs: Seq<ImportRecordView>,
) -> UsageView
    decreases rs.len(),
{
    if rs.len() == 0 {
        st
    } else {
        usage_record(index, usage_records(index, st, source, skey, rs.drop_last()), source, skey, rs.last())
    }
}

/// The usage of every key, importer by importer; every importer's own key
/// is present, with no importers if nothing imports it.
pub open spec fn usage_of(index: IndexView, g: ImportGraphView) -> UsageView
    decreases g.len(),
{
    if g.len() == 0 {
        (Seq::empty(), Seq::empty())
    } else {
        let st = usage_of(index, g.drop_last());
        match assoc_get(index, g.last().0) {
            None => st,
            Some(source) => {
                let skey = spec_location_key(source);
                let st1 = (st.0, put_absent(st.1, skey, spec_location_path(source)));
                let st2 = usage_records(index, st1, source, skey, g.last().1);
                (ensure_entry(st2.0, skey), st2.1)
            },
        }
    }
}

pub open spec fn msg_one_layer(reference: Seq<char>) -> Seq<char> {
    "This slice has only one reference on layer \""@ + reference + "\". Consider moving this code to \""@
        + reference + "\"."@
}

pub open spec fn msg_one_slice(reference: Seq<char>) -> Seq<char> {
    "This slice has only one reference in slice \""@ + reference + "\". Consider merging them."@
}

pub open spec fn msg_no_references() -> Seq<char> {
    "This slice has no references. Consider removing it."@
}

/// `fsd/insignificant-slice` for one key of a sliced layer other than
/// `pages`: a slice imported by no other slice, or by exactly one (unless
/// that one is the `app` layer).
pub open spec fn usage_one(locs: Seq<(Seq<char>, Seq<char>)>, entry: (Seq<char>, Seq<Seq<char>>)) -> Seq<DiagnosticView> {
    let key = entry.0;
    let targets = entry.1;
    let layer = first_piece(key);
    if !spec_is_sliced(layer) || layer == "pages"@ {
        Seq::empty()
    } else {
        match assoc_get(locs, key) {
            None => Seq::empty(),
            Some(loc) => if targets.len() == 1 {
                let reference = targets[0];
                if reference == "shared"@ || reference == "app"@ {
                    if reference != "app"@ {
                        seq![new_diagnostic(INSIGNIFICANT_SLICE@, msg_one_layer(reference), loc)]
                    } else {
                        Seq::empty()
                    }
                } else {
                    seq![new_diagnostic(INSIGNIFICANT_SLICE@, msg_one_slice(reference), loc)]
                }
            } else if targets.len() == 0 {
                seq![new_diagnostic(INSIGNIFICANT_SLICE@, msg_no_references(), loc)]
            } else {
                Seq::empty()
            },
        }
    }
}

pub open spec fn usage_diags(locs: Seq<(Seq<char>, Seq<char>)>, refs: Seq<(Seq<char>, Seq<Seq<char>>)>) -> Seq<DiagnosticView>
    decreases refs.len(),
{
    if refs.len() == 0 {
        Seq::empty()
    } else {
        usage_diags(locs, refs.drop_last()) + usage_one(locs, refs.last())
    }
}

/// `fsd/insignificant-slice`: for each key in string order.
pub open spec fn spec_insignificant_slice(g: ImportGraphView, index: IndexView) -> Seq<DiagnosticView> {
    let st = usage_of(index, g);
    usage_diags(st.1, st.0)
}

fn put_absent_exec(m: &mut Vec<(String, String)>, k: String, v: String)
    ensures
        final(m).deep_view() == put_absent(old(m).deep_view(), k@, v@),
{
    match assoc_find(m, k.as_str()) {
        Some(_) => {},
        None => {
            assoc_insert(m, k, v, false);
        },
    }
}

fn add_reference_exec(m: &mut Vec<(String, Vec<String>)>, target_key: String, source_key: String)
    ensures
        final(m).deep_view() == add_reference(old(m).deep_view(), target_key@, source_key@),
{
    let mut set: Vec<String> = match assoc_find(m, target_key.as_str()) {
        Some(k) => {
            let mut c: Vec<String> = Vec::new();
            let mut j: usize = 0;
            while j < m[k].1.len()
                invariant
                    k < m@.len(),
                    j <= m@[k as int].1@.len(),
                    c.deep_view() == m@[k as int].1.deep_view().take(j as int),
                decreases m@[k as int].1@.len() - j,
            {
                let ghost b = c.deep_view();
                c.push(m[k].1[j].clone());
                assert(c.deep_view() =~= b.push(m@[k as int].1@[j as int]@));
                assert(m@[k as int].1.deep_view().take(j + 1) =~= m@[k as int].1.deep_view().take(j as int).push(
                    m@[k as int].1@[j as int]@,
                ));
                j = j + 1;
            }
            assert(m@[k as int].1.deep_view().take(m@[k as int].1@.len() as int) =~= m@[k as int].1.deep_view());
            assert(m.deep_view()[k as int].1 == m@[k as int].1.deep_view());
            c
        },
        None => {
            let c: Vec<String> = Vec::new();
            assert(c.deep_view() =~= Seq::<Seq<char>>::empty());
            c
        },
    };
    set_insert(&mut set, source_key, false);
    assoc_insert(m, target_key, set, false);
}

fn ensure_entry_exec(m: &mut Vec<(String, Vec<String>)>, k: String)
    ensures
        final(m).deep_view() == ensure_entry(old(m).deep_view(), k@),
{
    match assoc_find(m, k.as_str()) {
        Some(_) => {},
        None => {
            let e: Vec<String> = Vec::new();
            assert(e.deep_view() =~= Seq::<Seq<char>>::empty());
            assoc_insert(m, k, e, false);
        },
    }
}

fn usage_records_exec(
    index: &Vec<(String, SourceLocation)>,
    refs: &mut Vec<(String, Vec<String>)>,
    locs: &mut Vec<(String, String)>,
    source: &SourceLocation,
    skey: &String,
    rs: &Vec<ImportRecord>,
)
    ensures
        (final(refs).deep_view(), final(locs).deep_view()) == usage_records(
            index.deep_view(),
            (old(refs).deep_view(), old(locs).deep_view()),
            source.deep_view(),
            skey@,
            rs.deep_view(),
        ),
{
    let ghost st0 = (refs.deep_view(), locs.deep_view());
    let ghost rv = rs.deep_view();
    let mut j: usize = 0;
    while j < rs.len()
        invariant
            j <= rs@.len(),
            rv == rs.deep_view(),
            (refs.deep_view(), locs.deep_view()) == usage_records(
                index.deep_view(),
                st0,
                source.deep_view(),
                skey@,
                rv.take(j as int),
            ),
        decreases rs.len() - j,
    {
        assert(rv.take(j + 1).drop_last() =~= rv.take(j as int));
        assert(rv.take(j + 1).last() == rs@[j as int].deep_view());
        match &rs[j].resolved {
            None => {},
            Some(t) => match assoc_find(index, t.as_str()) {
                None => {},
                Some(k) => {
                    let target = &index[k].1;
                    assert(index.deep_view()[k as int].1 == target.deep_view());
                    if !text_eq(source.layer_name.as_str(), target.layer_name.as_str()) {
                        let tkey = location_key(target);
                        put_absent_exec(locs, tkey.clone(), location_path(target));
                        if !text_eq(skey.as_str(), tkey.as_str()) {
                            add_reference_exec(refs, tkey, skey.clone());
                        }
                    }
                },
            },
        }
        j = j + 1;
    }
    assert(rv.take(rv.len() as int) =~= rv);
}

fn usage_one_exec(locs: &Vec<(String, String)>, key: &String, targets: &Vec<String>, r: &mut Vec<Diagnostic>)
    ensures
        final(r).deep_view() == old(r).deep_view() + usage_one(locs.deep_view(), (key@, targets.deep_view())),
{
    let ghost before = r.deep_view();
    let layer = first_piece_of(key.as_str());
    if !Project::is_sliced(layer.as_str()) || text_eq(layer.as_str(), "pages") {
        assert(r.deep_view() =~= before + usage_one(locs.deep_view(), (key@, targets.deep_view())));
        return;
    }
    match assoc_find(locs, key.as_str()) {
        None => {},
        Some(k) => {
            let loc = &locs[k].1;
            assert(locs.deep_view()[k as int].1 == loc@);
            if targets.len() == 1 {
                let reference = &targets[0];
                assert(targets.deep_view()[0] == reference@);
                if text_eq(reference.as_str(), "shared") || text_eq(reference.as_str(), "app") {
                    if !text_eq(reference.as_str(), "app") {
                        let m = cat5(
                            "This slice has only one reference on layer \"",
                            reference.as_str(),
                            "\". Consider moving this code to \"",
                            reference.as_str(),
                            "\".",
                        );
                        r.push(Diagnostic::new(INSIGNIFICANT_SLICE, m.as_str(), loc.as_str()));
                    }
                } else {
                    let m = cat3(
                        "This slice has only one reference in slice \"",
                        reference.as_str(),
                        "\". Consider merging them.",
                    );
                    r.push(Diagnostic::new(INSIGNIFICANT_SLICE, m.as_str(), loc.as_str()));
                }
            } else if targets.len() == 0 {
                r.push(
                    Diagnostic::new(
                        INSIGNIFICANT_SLICE,
                        "This slice has no references. Consider removing it.",
                        loc.as_str(),
                    ),
                );
            }
        },
    }
    assert(r.deep_view() =~= before + usage_one(locs.deep_view(), (key@, targets.deep_view())));
}

pub fn insignificant_slice(graph: &ImportGraph, index: &Vec<(String, SourceLocation)>) -> (r: Vec<Diagnostic>)
    ensures
        r.deep_view() == spec_insignificant_slice(graph.deep_view(), index.deep_view()),
{
    let ghost gv = graph.deep_view();
    let ghost iv = index.deep_view();
    let mut refs: Vec<(String, Vec<String>)> = Vec::new();
    let mut locs: Vec<(String, String)> = Vec::new();
    assert((refs.deep_view(), locs.deep_view()) =~= usage_of(iv, gv.take(0)));
    let mut i: usize = 0;
    while i < graph.imports.len()
        invariant
            i <= gv.len(),
            gv == graph.deep_view(),
            iv == index.deep_view(),
            gv.len() == graph.imports@.len(),
            (refs.deep_view(), locs.deep_view()) == usage_of(iv, gv.take(i as int)),
        decreases graph.imports.len() - i,
    {
        assert(gv.take(i + 1).drop_last() =~= gv.take(i as int));
        assert(gv.take(i + 1).last() == graph.imports@[i as int].deep_view());
        match assoc_find(index, graph.imports[i].0.as_str()) {
            None => {},
            Some(k) => {
                let source = &index[k].1;
                assert(iv[k as int].1 == source.deep_view());
                let skey = location_key(source);
                put_absent_exec(&mut locs, skey.clone(), location_path(source));
                usage_records_exec(index, &mut refs, &mut locs, source, &skey, &graph.imports[i].1);
                ensure_entry_exec(&mut refs, skey);
            },
        }
        i = i + 1;
    }
    assert(gv.take(gv.len() as int) =~= gv);
    let ghost rv = refs.deep_view();
    let ghost lv = locs.deep_view();
    let mut r: Vec<Diagnostic> = Vec::new();
    assert(r.deep_view() =~= usage_diags(lv, rv.take(0)));
    let mut j: usize = 0;
    while j < refs.len()
        invariant
            j <= rv.len(),
            rv == refs.deep_view(),
            lv == locs.deep_view(),
            rv.len() == refs@.len(),
            r.deep_view() == usage_diags(lv, rv.take(j as int)),
        decreases refs.len() - j,
    {
        assert(rv.take(j + 1).drop_last() =~= rv.take(j as int));
        assert(rv.take(j + 1).last() == refs@[j as int].deep_view());
        usage_one_exec(&locs, &refs[j].0, &refs[j].1, &mut r);
        j = j + 1;
    }
    assert(rv.take(rv.len() as int) =~= rv);
    r
}


/// What the import rule named `rule` reports, for the project `p` whose
/// import graph is `g` and whose source index is `index`; nothing for a name
/// that is not one of them.
pub open spec fn spec_import_rule(rule: Seq<char>, p: ProjectView, g: ImportGraphView, index: IndexView) -> Seq<DiagnosticView> {
    let is = spec_resolved_imports(g, index);
    if rule == FORBIDDEN_IMPORTS@ {
        each_import(is, |i: ResolvedImportView| forbidden_one(i))
    } else if rule == NO_CROSS_IMPORTS@ {
        each_import(is, |i: ResolvedImportView| no_cross_one(i))
    } else if rule == NO_HIGHER_LEVEL_IMPORTS@ {
        each_import(is, |i: ResolvedImportView| higher_one(i))
    } else if rule == IMPORT_LOCALITY@ {
        each_import(is, |i: ResolvedImportView| locality_one(i))
    } else if rule == NO_PUBLIC_API_SIDESTEP@ {
        each_import(is, |i: ResolvedImportView| sidestep_one(p, i))
    } else if rule == INSIGNIFICANT_SLICE@ {
        spec_insignificant_slice(g, index)
    } else {
        Seq::empty()
    }
}

/// Runs the import rule named `rule`.
pub fn run_rule(rule: &str, project: &Project, analysis: &ImportAnalysis) -> (r: Vec<Diagnostic>)
    requires
        project.wf(),
        analysis.wf(),
    ensures
        r.deep_view() == spec_import_rule(
            rule@,
            project.deep_view(),
            analysis.graph.deep_view(),
            analysis.index.deep_view(),
        ),
{
    if text_eq(rule, FORBIDDEN_IMPORTS) {
        forbidden_imports(&analysis.resolved)
    } else if text_eq(rule, NO_CROSS_IMPORTS) {
        no_cross_imports(&analysis.resolved)
    } else if text_eq(rule, NO_HIGHER_LEVEL_IMPORTS) {
        no_higher_level_imports(&analysis.resolved)
    } else if text_eq(rule, IMPORT_LOCALITY) {
        import_locality(&analysis.resolved)
    } else if text_eq(rule, NO_PUBLIC_API_SIDESTEP) {
        no_public_api_sidestep(project, &analysis.resolved)
    } else if text_eq(rule, INSIGNIFICANT_SLICE) {
        insignificant_slice(analysis.graph, analysis.index)
    } else {
        let r: Vec<Diagnostic> = Vec::new();
        assert(r.deep_view() =~= Seq::<DiagnosticView>::empty());
        r
    }
}

/// Layers rank in the order of the layer sequence (shared, entities,
/// features, widgets, pages, app): an import reaches a higher layer exactly
/// when the target's layer comes later in that sequence than the source's.
pub proof fn lemma_higher_layer_is_later(s: SourceLocationView, t: SourceLocationView)
    ensures
        spec_is_higher_layer(s, t) <==> exists|i: int, j: int|
            0 <= i < j < crate::fsd::layer_sequence().len() && #[trigger] crate::fsd::layer_sequence()[i]
                == s.layer_name && #[trigger] crate::fsd::layer_sequence()[j] == t.layer_name,
{
    lemma_layer_positions();
    let ls = crate::fsd::layer_sequence();
    if spec_is_higher_layer(s, t) {
        let a = spec_layer_position(s.layer_name)->Some_0;
        let b = spec_layer_position(t.layer_name)->Some_0;
        assert(ls[a] == s.layer_name);
        assert(ls[b] == t.layer_name);
    }
    if exists|i: int, j: int|
        0 <= i < j < ls.len() && #[trigger] ls[i] == s.layer_name && #[trigger] ls[j] == t.layer_name {
        let (i, j) = choose|i: int, j: int|
            0 <= i < j < ls.len() && #[trigger] ls[i] == s.layer_name && #[trigger] ls[j] == t.layer_name;
        assert(spec_layer_position(ls[i]) == Some(i));
        assert(spec_layer_position(ls[j]) == Some(j));
    }
}

/// Each layer of the sequence has its index as its rank, and a rank names
/// exactly one layer of the sequence.
proof fn lemma_layer_positions()
    ensures
        forall|i: int| 0 <= i < crate::fsd::layer_sequence().len() ==> spec_layer_position(#[trigger] crate::fsd::layer_sequence()[i]) == Some(i),
        forall|n: Seq<char>| #[trigger] spec_layer_position(n) is Some ==> 0 <= spec_layer_position(n)->Some_0 < crate::fsd::layer_sequence().len()
            && crate::fsd::layer_sequence()[spec_layer_position(n)->Some_0] == n,
{
    reveal_strlit("shared");
    reveal_strlit("entities");
    reveal_strlit("features");
    reveal_strlit("widgets");
    reveal_strlit("pages");
    reveal_strlit("app");
    let ls = crate::fsd::layer_sequence();
    assert(ls.len() == 6);
    assert("entities"@[0] != "features"@[0]);
    assert("shared"@[0] != "widgets"@[0]);
    assert("shared"@.len() != "pages"@.len());
    assert("shared"@.len() != "app"@.len());
    assert("shared"@.len() != "entities"@.len());
    assert("shared"@.len() != "features"@.len());
    assert("entities"@.len() != "widgets"@.len());
    assert("entities"@.len() != "pages"@.len());
    assert("entities"@.len() != "app"@.len());
    assert("features"@.len() != "widgets"@.len());
    assert("features"@.len() != "pages"@.len());
    assert("features"@.len() != "app"@.len());
    assert("widgets"@.len() != "pages"@.len());
    assert("widgets"@.len() != "app"@.len());
    assert("pages"@.len() != "app"@.len());
    assert forall|i: int| 0 <= i < ls.len() implies spec_layer_position(#[trigger] ls[i]) == Some(i) by {
        if i == 0 {
            assert(ls[0] == "shared"@);
        } else if i == 1 {
            assert(ls[1] == "entities"@);
        } else if i == 2 {
            assert(ls[2] == "features"@);
        } else if i == 3 {
            assert(ls[3] == "widgets"@);
        } else if i == 4 {
            assert(ls[4] == "pages"@);
        } else {
            assert(ls[5] == "app"@);
        }
    }
    assert forall|n: Seq<char>| #[trigger] spec_layer_position(n) is Some implies 0 <= spec_layer_position(n)->Some_0 < ls.len()
        && ls[spec_layer_position(n)->Some_0] == n by {
        assert(ls[0] == "shared"@);
        assert(ls[1] == "entities"@);
        assert(ls[2] == "features"@);
        assert(ls[3] == "widgets"@);
        assert(ls[4] == "pages"@);
        assert(ls[5] == "app"@);
    }
}

/// A specifier written relative to the importing file: `.` or `..`, or a
/// path that starts with `./` or `../`.
pub open spec fn is_relative_specifier(s: Seq<char>) -> bool {
    ||| s == seq!['.']
    ||| s == seq!['.', '.']
    ||| (s.len() >= 2 && s[0] == '.' && s[1] == '/')
    ||| (s.len() >= 3 && s[0] == '.' && s[1] == '.' && s[2] == '/')
}

/// The import stays inside one slice: same layer and same slice.
pub open spec fn within_one_slice(i: ResolvedImportView) -> bool {
    i.1.layer_name == i.3.layer_name && i.1.slice_name == i.3.slice_name
}

proof fn lemma_first_piece_relative(s: Seq<char>)
    ensures
        (first_piece(s) == "."@ || first_piece(s) == ".."@) <==> is_relative_specifier(s),
{
    reveal_strlit(".");
    reveal_strlit("..");
    assert("."@ =~= seq!['.']);
    assert(".."@ =~= seq!['.', '.']);
    lemma_first_slash_bound(s);
    let k = first_slash(s);
    if k >= 0 {
        let f = s.take(k);
        assert(first_piece(s) == f);
        assert(s[k] == '/');
        if f == seq!['.'] {
            assert(f.len() == 1);
            assert(s[0] == f[0]);
            assert(is_relative_specifier(s));
        }
        if f == seq!['.', '.'] {
            assert(f.len() == 2);
            assert(s[0] == f[0] && s[1] == f[1]);
            assert(is_relative_specifier(s));
        }
        if s.len() >= 2 && s[0] == '.' && s[1] == '/' {
            crate::rules::structural::lemma_first_slash_at(s, 1);
            assert(f =~= seq!['.']);
        } else if s.len() >= 3 && s[0] == '.' && s[1] == '.' && s[2] == '/' {
            crate::rules::structural::lemma_first_slash_at(s, 2);
            assert(f =~= seq!['.', '.']);
        }
        if s == seq!['.'] {
            assert(s[k] != '/');
        }
        if s == seq!['.', '.'] {
            assert(s[k] != '/');
        }
    } else {
        assert(first_piece(s) == s);
        if s.len() >= 2 && s[0] == '.' && s[1] == '/' {
            assert(s[1] != '/');
        }
        if s.len() >= 3 && s[0] == '.' && s[1] == '.' && s[2] == '/' {
            assert(s[2] != '/');
        }
    }
}

/// `fsd/import-locality` reports an import exactly when its specifier is
/// relative but it leaves its slice, or it stays in its slice but is not
/// relative; then once, at the importing file.
pub proof fn lemma_import_locality(i: ResolvedImportView)
    ensures
        locality_one(i).len() <= 1,
        locality_one(i).len() == 0 <==> (is_relative_specifier(i.2.specifier) <==> within_one_slice(i)),
        forall|k: int| 0 <= k < locality_one(i).len() ==> (#[trigger] locality_one(i)[k]).location.path == i.0,
{
    lemma_first_piece_relative(i.2.specifier);
}

/// `s` lies in the layer named `layer`: its first `/`-piece is that name.
pub open spec fn key_in_layer(key: Seq<char>, layer: Seq<char>) -> bool {
    key == layer || (key.len() > layer.len() && key.take(layer.len() as int) == layer && key[layer.len() as int] == '/')
}

/// The references of a slice of the pages layer are never reported.
pub proof fn lemma_page_slice_not_reported(
    locs: Seq<(Seq<char>, Seq<char>)>,
    key: Seq<char>,
    targets: Seq<Seq<char>>,
)
    requires
        key_in_layer(key, seq!['p', 'a', 'g', 'e', 's']),
    ensures
        usage_one(locs, (key, targets)) == Seq::<DiagnosticView>::empty(),
{
    reveal_strlit("pages");
    let l = seq!['p', 'a', 'g', 'e', 's'];
    lemma_first_slash_bound(key);
    if key == l {
        assert(first_slash(key) < 0) by {
            if first_slash(key) >= 0 {
                assert(key[first_slash(key)] == '/');
            }
        }
    } else {
        assert forall|j: int| 0 <= j < 5 implies key[j] != '/' by {
            assert(key[j] == key.take(5)[j]);
        }
        crate::rules::structural::lemma_first_slash_at(key, 5);
    }
    assert(first_piece(key) =~= "pages"@);
}

/// The pages slices among `refs` left out.
pub open spec fn without_pages(refs: Seq<(Seq<char>, Seq<Seq<char>>)>) -> Seq<(Seq<char>, Seq<Seq<char>>)>
    decreases refs.len(),
{
    if refs.len() == 0 {
        Seq::empty()
    } else if key_in_layer(refs.last().0, seq!['p', 'a', 'g', 'e', 's']) {
        without_pages(refs.drop_last())
    } else {
        without_pages(refs.drop_last()).push(refs.last())
    }
}

/// `fsd/insignificant-slice` is the same with or without the slices of the
/// pages layer: no page slice is ever reported, whatever references it.
pub proof fn lemma_insignificant_ignores_pages(locs: Seq<(Seq<char>, Seq<char>)>, refs: Seq<(Seq<char>, Seq<Seq<char>>)>)
    ensures
        usage_diags(locs, refs) == usage_diags(locs, without_pages(refs)),
    decreases refs.len(),
{
    if refs.len() > 0 {
        lemma_insignificant_ignores_pages(locs, refs.drop_last());
        let w = without_pages(refs.drop_last());
        if key_in_layer(refs.last().0, seq!['p', 'a', 'g', 'e', 's']) {
            lemma_page_slice_not_reported(locs, refs.last().0, refs.last().1);
            assert(usage_diags(locs, refs) =~= usage_diags(locs, refs.drop_last()));
        } else {
            assert(w.push(refs.last()).drop_last() =~= w);
        }
    }
}

} // verus!
