//! The rules that read the folder structure only.
use vstd::prelude::*;
use crate::diagnostic::{Diagnostic, DiagnosticView, new_diagnostic, with_fixes_view, Fix, FixView};
use crate::bindings::{lowercase, pluralize, pluralized, to_lowercase, regex_matches, regex_find_all, edit_distance, levenshtein};
use crate::order::{set_put, set_insert};
use crate::fsd::layer_sequence;
use crate::fsd::{spec_slices, spec_all_slices, SliceView};
use crate::fsd::{
    file_name, is_conventional_segment, spec_child_directories, spec_children, spec_file_name_of,
    spec_indexes, spec_is_conventional_segment, spec_is_sliced, spec_layers, spec_segments,
    EntryKind, EntryView, Project, ProjectView,
};
use crate::order::{assoc_find, assoc_get, assoc_insert, assoc_put, text_eq};
use crate::path_utils::{last_slash, lemma_last_slash, last_slash_index, spec_join, join, spec_parent, parent};
use crate::text::{chars_of, string_of_range, push_char, push_text};
use crate::rules::{
    REPETITIVE_NAMING, TYPO_IN_LAYER_NAME, AMBIGUOUS_SLICE_NAMES, EXCESSIVE_SLICING, INCONSISTENT_NAMING, PUBLIC_API, NO_RESERVED_FOLDER_NAMES, NO_SEGMENTLESS_SLICES, NO_LAYER_PUBLIC_API, NO_PROCESSES, NO_SEGMENTS_ON_SLICED_LAYERS, NO_UI_IN_APP,
    SEGMENTS_BY_PURPOSE, SHARED_LIB_GROUPING,
};
use crate::text::{cat3, cat5, decimal, decimal_string};
use crate::rules::strs_view;
use crate::fsd::{spec_all_segments, spec_descendant_directories, spec_is_slice, SegmentView, walk_pending, lemma_walk_pending_children};
use crate::fsd::{tree_bound, lemma_child_folders, lemma_child_directories};

verus! {

/// The first of `dirs` whose name is `name`.
pub open spec fn first_named(dirs: Seq<Seq<char>>, name: Seq<char>) -> Option<Seq<char>>
    decreases dirs.len(),
{
    if dirs.len() == 0 {
        None
    } else if spec_file_name_of(dirs[0]) == Some(name) {
        Some(dirs[0])
    } else {
        first_named(dirs.drop_first(), name)
    }
}

proof fn lemma_first_named_skip(dirs: Seq<Seq<char>>, name: Seq<char>, i: int)
    requires
        0 <= i <= dirs.len(),
        forall|j: int| 0 <= j < i ==> spec_file_name_of(dirs[j]) != Some(name),
    ensures
        first_named(dirs, name) == first_named(dirs.skip(i), name),
    decreases i,
{
    if i == 0 {
        assert(dirs.skip(0) =~= dirs);
    } else {
        lemma_first_named_skip(dirs.drop_first(), name, i - 1);
        assert(dirs.drop_first().skip(i - 1) =~= dirs.skip(i));
    }
}

/// `fsd/no-processes`: the deprecated `processes` layer.
pub open spec fn spec_no_processes(p: ProjectView) -> Seq<DiagnosticView> {
    match first_named(spec_child_directories(p, p.root), "processes"@) {
        Some(d) => seq![new_diagnostic(NO_PROCESSES@, "Layer \"processes\" is deprecated, avoid using it"@, d)],
        None => Seq::empty(),
    }
}

pub fn no_processes(project: &Project) -> (r: Vec<Diagnostic>)
    requires
        project.wf(),
    ensures
        r.deep_view() == spec_no_processes(project.deep_view()),
{
    let dirs = project.child_directories(project.root.as_str());
    let ghost dv = dirs.deep_view();
    let mut i: usize = 0;
    while i < dirs.len()
        invariant
            i <= dirs@.len(),
            dv == dirs.deep_view(),
            dv == spec_child_directories(project.deep_view(), project.root@),
            forall|j: int| 0 <= j < i ==> spec_file_name_of(dv[j]) != Some("processes"@),
        decreases dirs.len() - i,
    {
        let n = file_name(dirs[i].as_str());
        let hit = match &n {
            Some(s) => text_eq(s.as_str(), "processes"),
            None => false,
        };
        assert(dv[i as int] == dirs@[i as int]@);
        if hit {
            proof {
                lemma_first_named_skip(dv, "processes"@, i as int);
            }
            let mut r: Vec<Diagnostic> = Vec::new();
            r.push(
                Diagnostic::new(
                    NO_PROCESSES,
                    "Layer \"processes\" is deprecated, avoid using it",
                    dirs[i].as_str(),
                ),
            );
            assert(r.deep_view() =~= spec_no_processes(project.deep_view()));
            return r;
        }
        i = i + 1;
    }
    proof {
        lemma_first_named_skip(dv, "processes"@, i as int);
    }
    let r: Vec<Diagnostic> = Vec::new();
    assert(r.deep_view() =~= spec_no_processes(project.deep_view()));
    r
}

/// `fsd/no-ui-in-app`: a `ui` segment in the `app` layer.
pub open spec fn spec_no_ui_in_app(p: ProjectView) -> Seq<DiagnosticView> {
    match assoc_get(spec_layers(p), "app"@) {
        None => Seq::empty(),
        Some(app) => match assoc_get(spec_segments(p, app), "ui"@) {
            Some(ui) => seq![
                new_diagnostic(NO_UI_IN_APP@, "Layer \"app\" should not have \"ui\" segment."@, ui.path),
            ],
            None => Seq::empty(),
        },
    }
}

pub fn no_ui_in_app(project: &Project) -> (r: Vec<Diagnostic>)
    requires
        project.wf(),
    ensures
        r.deep_view() == spec_no_ui_in_app(project.deep_view()),
{
    let layers = project.layers();
    let mut r: Vec<Diagnostic> = Vec::new();
    match assoc_find(&layers, "app") {
        None => {},
        Some(k) => {
            let segs = project.segments(layers[k].1.as_str());
            match assoc_find(&segs, "ui") {
                Some(u) => {
                    r.push(
                        Diagnostic::new(
                            NO_UI_IN_APP,
                            "Layer \"app\" should not have \"ui\" segment.",
                            segs[u].1.path.as_str(),
                        ),
                    );
                },
                None => {},
            }
        },
    }
    assert(r.deep_view() =~= spec_no_ui_in_app(project.deep_view()));
    r
}

pub open spec fn msg_layer_index(layer_name: Seq<char>) -> Seq<char> {
    "Layer \""@ + layer_name + "\" should not have an index file"@
}

pub open spec fn layer_index_diags(layer_name: Seq<char>, indexes: Seq<Seq<char>>) -> Seq<DiagnosticView> {
    indexes.map_values(|i: Seq<char>| new_diagnostic(NO_LAYER_PUBLIC_API@, msg_layer_index(layer_name), i))
}

pub open spec fn no_layer_public_api_fold(p: ProjectView, ls: Seq<(Seq<char>, Seq<char>)>) -> Seq<DiagnosticView>
    decreases ls.len(),
{
    if ls.len() == 0 {
        Seq::empty()
    } else {
        let acc = no_layer_public_api_fold(p, ls.drop_last());
        let (name, path) = ls.last();
        if name != "app"@ {
            acc + layer_index_diags(name, spec_indexes(p, path))
        } else {
            acc
        }
    }
}

/// `fsd/no-layer-public-api`: an index file directly in a layer other than `app`.
pub open spec fn spec_no_layer_public_api(p: ProjectView) -> Seq<DiagnosticView> {
    no_layer_public_api_fold(p, spec_layers(p))
}

pub fn no_layer_public_api(project: &Project) -> (r: Vec<Diagnostic>)
    requires
        project.wf(),
    ensures
        r.deep_view() == spec_no_layer_public_api(project.deep_view()),
{
    let layers = project.layers();
    let ghost lv = layers.deep_view();
    let ghost pv = project.deep_view();
    let mut r: Vec<Diagnostic> = Vec::new();
    let mut i: usize = 0;
    assert(r.deep_view() =~= no_layer_public_api_fold(pv, lv.take(0)));
    while i < layers.len()
        invariant
            project.wf(),
            pv == project.deep_view(),
            i <= layers@.len(),
            lv == layers.deep_view(),
            r.deep_view() == no_layer_public_api_fold(pv, lv.take(i as int)),
        decreases layers.len() - i,
    {
        assert(lv.take(i + 1).drop_last() =~= lv.take(i as int));
        assert(lv.take(i + 1).last() == layers@[i as int].deep_view());
        let name = &layers[i].0;
        if !text_eq(name.as_str(), "app") {
            let idx = project.indexes(layers[i].1.as_str());
            let ghost iv = idx.deep_view();
            let ghost before = r.deep_view();
            let message = cat3("Layer \"", name.as_str(), "\" should not have an index file");
            let mut j: usize = 0;
            while j < idx.len()
                invariant
                    j <= idx@.len(),
                    iv == idx.deep_view(),
                    message@ == msg_layer_index(name@),
                    r.deep_view() == before + layer_index_diags(name@, iv.take(j as int)),
                decreases idx.len() - j,
            {
                let ghost prev = r.deep_view();
                let d = Diagnostic::new(NO_LAYER_PUBLIC_API, message.as_str(), idx[j].as_str());
                r.push(d);
                assert(r.deep_view() =~= prev.push(d.deep_view()));
                assert(layer_index_diags(name@, iv.take(j + 1)) =~= layer_index_diags(name@, iv.take(j as int)).push(d.deep_view()));
                j = j + 1;
            }
            assert(iv.take(idx@.len() as int) =~= iv);
        }
        i = i + 1;
    }
    assert(lv.take(layers@.len() as int) =~= lv);
    r
}

/// Segment names that say what the contents are rather than what they are for.
pub open spec fn bad_segment_names() -> Seq<Seq<char>> {
    seq![
        "component"@,
        "components"@,
        "helper"@,
        "helpers"@,
        "util"@,
        "utils"@,
        "constant"@,
        "constants"@,
        "const"@,
        "consts"@,
        "type"@,
        "types"@,
        "store"@,
        "stores"@,
        "modal"@,
        "modals"@,
        "service"@,
        "services"@,
        "function"@,
        "functions"@,
        "class"@,
        "classes"@,
        "enum"@,
        "enums"@,
        "interface"@,
        "interfaces"@,
        "decorator"@,
        "decorators"@,
        "schema"@,
        "schemas"@,
        "handler"@,
        "handlers"@,
        "fixture"@,
        "fixtures"@,
        "middleware"@,
        "middlewares"@,
        "validator"@,
        "validators"@,
        "validation"@,
        "validations"@,
        "resolver"@,
        "resolvers"@,
        "mutation"@,
        "mutations"@,
        "asset"@,
        "assets"@,
        "hook"@,
        "hooks"@,
        "context"@,
        "provider"@,
        "providers"@,
        "composable"@,
        "composables"@,
        "directive"@,
        "directives"@,
        "action"@,
        "actions"@,
        "reducer"@,
        "reducers"@,
        "selector"@,
        "selectors"@,
        "effect"@,
        "effects"@,
        "saga"@,
        "sagas"@,
        "thunk"@,
        "thunks"@,
        "pipe"@,
        "pipes"@
    ]
}

fn bad_segment_name_list() -> (r: Vec<&'static str>)
    ensures
        strs_view(r@) == bad_segment_names(),
{
    let r = vec![
        "component",
        "components",
        "helper",
        "helpers",
        "util",
        "utils",
        "constant",
        "constants",
        "const",
        "consts",
        "type",
        "types",
        "store",
        "stores",
        "modal",
        "modals",
        "service",
        "services",
        "function",
        "functions",
        "class",
        "classes",
        "enum",
        "enums",
        "interface",
        "interfaces",
        "decorator",
        "decorators",
        "schema",
        "schemas",
        "handler",
        "handlers",
        "fixture",
        "fixtures",
        "middleware",
        "middlewares",
        "validator",
        "validators",
        "validation",
        "validations",
        "resolver",
        "resolvers",
        "mutation",
        "mutations",
        "asset",
        "assets",
        "hook",
        "hooks",
        "context",
        "provider",
        "providers",
        "composable",
        "composables",
        "directive",
        "directives",
        "action",
        "actions",
        "reducer",
        "reducers",
        "selector",
        "selectors",
        "effect",
        "effects",
        "saga",
        "sagas",
        "thunk",
        "thunks",
        "pipe",
        "pipes"
    ];
    assert(strs_view(r@) =~= bad_segment_names());
    r
}

/// Whether `name` is one of `bad_segment_names`.
pub fn is_bad_segment_name(name: &str) -> (r: bool)
    ensures
        r == bad_segment_names().contains(name@),
{
    let list = bad_segment_name_list();
    let mut i: usize = 0;
    while i < list.len()
        invariant
            i <= list@.len(),
            strs_view(list@) == bad_segment_names(),
            forall|j: int| 0 <= j < i ==> bad_segment_names()[j] != name@,
        decreases list.len() - i,
    {
        assert(bad_segment_names()[i as int] == list@[i as int]@);
        if text_eq(list[i], name) {
            assert(bad_segment_names()[i as int] == name@);
            return true;
        }
        i = i + 1;
    }
    assert(!bad_segment_names().contains(name@)) by {
        if bad_segment_names().contains(name@) {
            let j = choose|j: int| 0 <= j < bad_segment_names().len() && bad_segment_names()[j] == name@;
            assert(bad_segment_names()[j] != name@);
        }
    }
    false
}

pub open spec fn purpose_diags(segs: Seq<SegmentView>) -> Seq<DiagnosticView>
    decreases segs.len(),
{
    if segs.len() == 0 {
        Seq::empty()
    } else if bad_segment_names().contains(segs.last().name) {
        purpose_diags(segs.drop_last()).push(
            new_diagnostic(
                SEGMENTS_BY_PURPOSE@,
                "This segment's name should describe the purpose of its contents, not what the contents are."@,
                segs.last().entry.path,
            ),
        )
    } else {
        purpose_diags(segs.drop_last())
    }
}

/// `fsd/segments-by-purpose`: each segment named by the kind of its contents.
pub open spec fn spec_segments_by_purpose(p: ProjectView) -> Seq<DiagnosticView> {
    purpose_diags(spec_all_segments(p))
}

pub fn segments_by_purpose(project: &Project) -> (r: Vec<Diagnostic>)
    requires
        project.wf(),
    ensures
        r.deep_view() == spec_segments_by_purpose(project.deep_view()),
{
    let segs = project.all_segments();
    let ghost sv = segs.deep_view();
    let mut r: Vec<Diagnostic> = Vec::new();
    let mut i: usize = 0;
    assert(r.deep_view() =~= purpose_diags(sv.take(0)));
    while i < segs.len()
        invariant
            i <= segs@.len(),
            sv == segs.deep_view(),
            r.deep_view() == purpose_diags(sv.take(i as int)),
        decreases segs.len() - i,
    {
        assert(sv.take(i + 1).drop_last() =~= sv.take(i as int));
        assert(sv.take(i + 1).last() == segs@[i as int].deep_view());
        if is_bad_segment_name(segs[i].name.as_str()) {
            let ghost prev = r.deep_view();
            let d = Diagnostic::new(
                SEGMENTS_BY_PURPOSE,
                "This segment's name should describe the purpose of its contents, not what the contents are.",
                segs[i].entry.path.as_str(),
            );
            r.push(d);
            assert(r.deep_view() =~= prev.push(d.deep_view()));
        }
        i = i + 1;
    }
    assert(sv.take(segs@.len() as int) =~= sv);
    r
}

pub open spec fn msg_conventional_child(name: Seq<char>) -> Seq<char> {
    "Conventional segment \""@ + name
        + "\" should not be a direct child of a sliced layer. Consider moving it inside a slice or, if that is a slice, consider a different name for it to avoid confusion with segments."@
}

pub open spec fn conventional_child_diags(dirs: Seq<Seq<char>>) -> Seq<DiagnosticView>
    decreases dirs.len(),
{
    if dirs.len() == 0 {
        Seq::empty()
    } else {
        let acc = conventional_child_diags(dirs.drop_last());
        match spec_file_name_of(dirs.last()) {
            Some(n) => if spec_is_conventional_segment(n) {
                acc.push(new_diagnostic(NO_SEGMENTS_ON_SLICED_LAYERS@, msg_conventional_child(n), dirs.last()))
            } else {
                acc
            },
            None => acc,
        }
    }
}

pub open spec fn no_segments_fold(p: ProjectView, ls: Seq<(Seq<char>, Seq<char>)>) -> Seq<DiagnosticView>
    decreases ls.len(),
{
    if ls.len() == 0 {
        Seq::empty()
    } else {
        let acc = no_segments_fold(p, ls.drop_last());
        let (name, path) = ls.last();
        if spec_is_sliced(name) {
            acc + conventional_child_diags(spec_child_directories(p, path))
        } else {
            acc
        }
    }
}

/// `fsd/no-segments-on-sliced-layers`: a folder named like a conventional
/// segment directly in a sliced layer.
pub open spec fn spec_no_segments_on_sliced_layers(p: ProjectView) -> Seq<DiagnosticView> {
    no_segments_fold(p, spec_layers(p))
}

pub fn no_segments_on_sliced_layers(project: &Project) -> (r: Vec<Diagnostic>)
    requires
        project.wf(),
    ensures
        r.deep_view() == spec_no_segments_on_sliced_layers(project.deep_view()),
{
    let layers = project.layers();
    let ghost lv = layers.deep_view();
    let ghost pv = project.deep_view();
    let mut r: Vec<Diagnostic> = Vec::new();
    let mut i: usize = 0;
    assert(r.deep_view() =~= no_segments_fold(pv, lv.take(0)));
    while i < layers.len()
        invariant
            project.wf(),
            pv == project.deep_view(),
            i <= layers@.len(),
            lv == layers.deep_view(),
            r.deep_view() == no_segments_fold(pv, lv.take(i as int)),
        decreases layers.len() - i,
    {
        assert(lv.take(i + 1).drop_last() =~= lv.take(i as int));
        assert(lv.take(i + 1).last() == layers@[i as int].deep_view());
        if Project::is_sliced(layers[i].0.as_str()) {
            let dirs = project.child_directories(layers[i].1.as_str());
            let ghost dv = dirs.deep_view();
            let ghost before = r.deep_view();
            let mut j: usize = 0;
            assert(conventional_child_diags(dv.take(0)) =~= Seq::<DiagnosticView>::empty());
            while j < dirs.len()
                invariant
                    j <= dirs@.len(),
                    dv == dirs.deep_view(),
                    r.deep_view() == before + conventional_child_diags(dv.take(j as int)),
                decreases dirs.len() - j,
            {
                assert(dv.take(j + 1).drop_last() =~= dv.take(j as int));
                assert(dv.take(j + 1).last() == dirs@[j as int]@);
                match file_name(dirs[j].as_str()) {
                    Some(n) => {
                        if is_conventional_segment(n.as_str()) {
                            let ghost prev = r.deep_view();
                            let message = cat3(
                                "Conventional segment \"",
                                n.as_str(),
                                "\" should not be a direct child of a sliced layer. Consider moving it inside a slice or, if that is a slice, consider a different name for it to avoid confusion with segments.",
                            );
                            let d = Diagnostic::new(NO_SEGMENTS_ON_SLICED_LAYERS, message.as_str(), dirs[j].as_str());
                            r.push(d);
                            assert(r.deep_view() =~= prev.push(d.deep_view()));
                        }
                    },
                    None => {},
                }
                j = j + 1;
            }
            assert(dv.take(dirs@.len() as int) =~= dv);
        }
        i = i + 1;
    }
    assert(lv.take(layers@.len() as int) =~= lv);
    r
}

pub open spec fn msg_shared_lib(count: nat) -> Seq<char> {
    "Shared/lib has "@ + decimal(count)
        + " modules, which is above the recommended threshold of 15. Consider grouping them."@
}

/// `fsd/shared-lib-grouping`: a `lib` folder in `shared` with over 15 children.
pub open spec fn spec_shared_lib_grouping(p: ProjectView) -> Seq<DiagnosticView> {
    match assoc_get(spec_layers(p), "shared"@) {
        None => Seq::empty(),
        Some(shared) => match assoc_get(spec_segments(p, shared), "lib"@) {
            None => Seq::empty(),
            Some(lib) => if lib.kind == EntryKind::Folder && spec_children(p, lib.path).len() > 15 {
                seq![
                    new_diagnostic(
                        SHARED_LIB_GROUPING@,
                        msg_shared_lib(spec_children(p, lib.path).len()),
                        lib.path,
                    ),
                ]
            } else {
                Seq::empty()
            },
        },
    }
}

pub fn shared_lib_grouping(project: &Project) -> (r: Vec<Diagnostic>)
    requires
        project.wf(),
    ensures
        r.deep_view() == spec_shared_lib_grouping(project.deep_view()),
{
    let layers = project.layers();
    let mut r: Vec<Diagnostic> = Vec::new();
    match assoc_find(&layers, "shared") {
        None => {},
        Some(k) => {
            let segs = project.segments(layers[k].1.as_str());
            match assoc_find(&segs, "lib") {
                None => {},
                Some(l) => {
                    let lib = &segs[l].1;
                    if lib.kind == EntryKind::Folder {
                        let kids = project.children(lib.path.as_str());
                        if kids.len() > 15 {
                            let message = cat3(
                                "Shared/lib has ",
                                decimal_string(kids.len()).as_str(),
                                " modules, which is above the recommended threshold of 15. Consider grouping them.",
                            );
                            r.push(Diagnostic::new(SHARED_LIB_GROUPING, message.as_str(), lib.path.as_str()));
                        }
                    }
                },
            }
        },
    }
    assert(r.deep_view() =~= spec_shared_lib_grouping(project.deep_view()));
    r
}

pub open spec fn msg_reserved_cross() -> Seq<char> {
    "Having a folder with the name \"@x\" inside a segment could be confusing because that name is reserved for cross-import public APIs. Consider renaming it."@
}

pub open spec fn msg_reserved_segment(name: Seq<char>) -> Seq<char> {
    "Having a folder with the name \""@ + name
        + "\" inside a segment could be confusing because that name is commonly used for segments. Consider renaming it."@
}

pub open spec fn reserved_in(folders: Seq<Seq<char>>) -> Seq<DiagnosticView>
    decreases folders.len(),
{
    if folders.len() == 0 {
        Seq::empty()
    } else {
        let acc = reserved_in(folders.drop_last());
        let f = folders.last();
        match spec_file_name_of(f) {
            None => acc,
            Some(n) => if n == "@x"@ {
                acc.push(new_diagnostic(NO_RESERVED_FOLDER_NAMES@, msg_reserved_cross(), f))
            } else if spec_is_conventional_segment(n) {
                acc.push(new_diagnostic(NO_RESERVED_FOLDER_NAMES@, msg_reserved_segment(n), f))
            } else {
                acc
            },
        }
    }
}

pub open spec fn reserved_below(p: ProjectView, kids: Seq<Seq<char>>) -> Seq<DiagnosticView>
    decreases kids.len(),
{
    if kids.len() == 0 {
        Seq::empty()
    } else {
        reserved_below(p, kids.drop_last()) + reserved_in(spec_descendant_directories(p, kids.last()))
    }
}

pub open spec fn reserved_segments(p: ProjectView, segs: Seq<SegmentView>) -> Seq<DiagnosticView>
    decreases segs.len(),
{
    if segs.len() == 0 {
        Seq::empty()
    } else {
        let acc = reserved_segments(p, segs.drop_last());
        let e = segs.last().entry;
        if e.kind == EntryKind::File {
            acc
        } else {
            acc + reserved_below(p, spec_child_directories(p, e.path))
        }
    }
}

/// `fsd/no-reserved-folder-names`: a folder inside a segment named `@x` or
/// like a conventional segment.
pub open spec fn spec_no_reserved_folder_names(p: ProjectView) -> Seq<DiagnosticView> {
    reserved_segments(p, spec_all_segments(p))
}

fn reserved_in_exec(folders: &Vec<String>, r: &mut Vec<Diagnostic>)
    ensures
        final(r).deep_view() == old(r).deep_view() + reserved_in(folders.deep_view()),
{
    let ghost fv = folders.deep_view();
    let ghost before = old(r).deep_view();
    let mut i: usize = 0;
    assert(reserved_in(fv.take(0)) =~= Seq::<DiagnosticView>::empty());
    while i < folders.len()
        invariant
            i <= folders@.len(),
            fv == folders.deep_view(),
            before == old(r).deep_view(),
            r.deep_view() == before + reserved_in(fv.take(i as int)),
        decreases folders.len() - i,
    {
        assert(fv.take(i + 1).drop_last() =~= fv.take(i as int));
        assert(fv.take(i + 1).last() == folders@[i as int]@);
        match file_name(folders[i].as_str()) {
            None => {},
            Some(n) => {
                let ghost prev = r.deep_view();
                if text_eq(n.as_str(), "@x") {
                    let d = Diagnostic::new(
                        NO_RESERVED_FOLDER_NAMES,
                        "Having a folder with the name \"@x\" inside a segment could be confusing because that name is reserved for cross-import public APIs. Consider renaming it.",
                        folders[i].as_str(),
                    );
                    r.push(d);
                    assert(r.deep_view() =~= prev.push(d.deep_view()));
                } else if is_conventional_segment(n.as_str()) {
                    let message = cat3(
                        "Having a folder with the name \"",
                        n.as_str(),
                        "\" inside a segment could be confusing because that name is commonly used for segments. Consider renaming it.",
                    );
                    let d = Diagnostic::new(NO_RESERVED_FOLDER_NAMES, message.as_str(), folders[i].as_str());
                    r.push(d);
                    assert(r.deep_view() =~= prev.push(d.deep_view()));
                }
            },
        }
        i = i + 1;
    }
    assert(fv.take(folders@.len() as int) =~= fv);
}

pub fn no_reserved_folder_names(project: &Project) -> (r: Vec<Diagnostic>)
    requires
        project.wf(),
    ensures
        r.deep_view() == spec_no_reserved_folder_names(project.deep_view()),
{
    let segs = project.all_segments();
    let ghost sv = segs.deep_view();
    let ghost pv = project.deep_view();
    let mut r: Vec<Diagnostic> = Vec::new();
    let mut i: usize = 0;
    assert(r.deep_view() =~= reserved_segments(pv, sv.take(0)));
    while i < segs.len()
        invariant
            project.wf(),
            pv == project.deep_view(),
            i <= segs@.len(),
            sv == segs.deep_view(),
            r.deep_view() == reserved_segments(pv, sv.take(i as int)),
        decreases segs.len() - i,
    {
        assert(sv.take(i + 1).drop_last() =~= sv.take(i as int));
        assert(sv.take(i + 1).last() == segs@[i as int].deep_view());
        if segs[i].entry.kind != EntryKind::File {
            let kids = project.child_directories(segs[i].entry.path.as_str());
            let ghost kv = kids.deep_view();
            let ghost before = r.deep_view();
            let mut j: usize = 0;
            assert(reserved_below(pv, kv.take(0)) =~= Seq::<DiagnosticView>::empty());
            while j < kids.len()
                invariant
                    project.wf(),
                    pv == project.deep_view(),
                    j <= kids@.len(),
                    kv == kids.deep_view(),
                    r.deep_view() == before + reserved_below(pv, kv.take(j as int)),
                decreases kids.len() - j,
            {
                assert(kv.take(j + 1).drop_last() =~= kv.take(j as int));
                assert(kv.take(j + 1).last() == kids@[j as int]@);
                let folders = project.descendant_directories(kids[j].as_str());
                reserved_in_exec(&folders, &mut r);
                j = j + 1;
            }
            assert(kv.take(kids@.len() as int) =~= kv);
        }
        i = i + 1;
    }
    assert(sv.take(segs@.len() as int) =~= sv);
    r
}

/// Every entry of `es` is a file.
pub open spec fn all_files(es: Seq<EntryView>) -> bool {
    forall|i: int| 0 <= i < es.len() ==> #[trigger] es[i].kind == EntryKind::File
}

/// A slice group: a folder, not itself a slice, whose children are all
/// folders that are slices, hold only files, or are slice groups.
pub open spec fn spec_is_slice_group(p: ProjectView, folder: Seq<char>) -> bool
    decreases tree_bound(p) - folder.len(), 1nat, 0int,
{
    spec_children(p, folder).len() > 0 && !spec_is_slice(p, folder) && group_children_ok(p, folder, 0)
}

/// Every child of `folder` from the `i`-th on is a folder that is a slice,
/// holds only files, or is a slice group.
pub open spec fn group_children_ok(p: ProjectView, folder: Seq<char>, i: int) -> bool
    decreases tree_bound(p) - folder.len(), 0nat, spec_children(p, folder).len() - i,
{
    let es = spec_children(p, folder);
    if i < 0 || i >= es.len() {
        true
    } else {
        let c = es[i];
        let ok = if c.kind != EntryKind::Folder {
            false
        } else if spec_is_slice(p, c.path) || all_files(spec_children(p, c.path)) {
            true
        } else {
            proof {
                lemma_child_folders(p, folder);
                assert(es.contains(c));
            }
            spec_is_slice_group(p, c.path)
        };
        ok && group_children_ok(p, folder, i + 1)
    }
}

fn all_files_exec(es: &Vec<crate::fsd::Entry>) -> (r: bool)
    ensures
        r == all_files(es.deep_view()),
{
    let mut i: usize = 0;
    while i < es.len()
        invariant
            i <= es@.len(),
            forall|j: int| 0 <= j < i ==> #[trigger] es.deep_view()[j].kind == EntryKind::File,
        decreases es.len() - i,
    {
        assert(es.deep_view()[i as int] == es@[i as int].deep_view());
        if es[i].kind != EntryKind::File {
            assert(es.deep_view()[i as int].kind != EntryKind::File);
            return false;
        }
        i = i + 1;
    }
    true
}

fn is_slice_group(project: &Project, folder: &str) -> (r: bool)
    requires
        project.wf(),
    ensures
        r == spec_is_slice_group(project.deep_view(), folder@),
    decreases tree_bound(project.deep_view()) - folder@.len(), 1nat, 0int,
{
    let es = project.children(folder);
    if es.len() == 0 || project.is_slice(folder) {
        return false;
    }
    children_form_group(project, folder, &es, 0)
}

fn children_form_group(project: &Project, folder: &str, es: &Vec<crate::fsd::Entry>, start: usize) -> (r: bool)
    requires
        project.wf(),
        es.deep_view() == spec_children(project.deep_view(), folder@),
        start <= es@.len(),
    ensures
        r == group_children_ok(project.deep_view(), folder@, start as int),
    decreases tree_bound(project.deep_view()) - folder@.len(), 0nat, es@.len() - start,
{
    let ghost ev = es.deep_view();
    if start == es.len() {
        return true;
    }
    assert(ev[start as int] == es@[start as int].deep_view());
    let c = &es[start];
    let ok = if c.kind != EntryKind::Folder {
        false
    } else if project.is_slice(c.path.as_str()) || all_files_exec(&project.children(c.path.as_str())) {
        true
    } else {
        proof {
            lemma_child_folders(project.deep_view(), folder@);
            assert(ev.contains(ev[start as int]));
        }
        is_slice_group(project, c.path.as_str())
    };
    if !ok {
        return false;
    }
    children_form_group(project, folder, es, start + 1)
}

/// What the walk of the candidate slices reports below candidate `c`: a
/// slice group passes on its child folders, the last one first, and a folder
/// that is neither a slice group nor a slice is reported.
pub open spec fn segmentless_from(p: ProjectView, c: Seq<char>) -> Seq<DiagnosticView>
    decreases tree_bound(p) - c.len(), 1nat, 0int,
{
    if spec_is_slice_group(p, c) {
        segmentless_children(p, c, spec_child_directories(p, c).len() as int)
    } else if !spec_is_slice(p, c) {
        seq![new_diagnostic(
            NO_SEGMENTLESS_SLICES@,
            "This slice has no segments. Consider dividing the code inside into segments."@,
            c,
        )]
    } else {
        Seq::empty()
    }
}

/// What the walk reports below the first `k` child folders of `d`, the
/// `k`-th first.
pub open spec fn segmentless_children(p: ProjectView, d: Seq<char>, k: int) -> Seq<DiagnosticView>
    decreases tree_bound(p) - d.len(), 0nat, k,
{
    if k <= 0 || k > spec_child_directories(p, d).len() {
        Seq::empty()
    } else {
        let c = spec_child_directories(p, d)[k - 1];
        proof {
            lemma_child_directories(p, d);
            assert(spec_child_directories(p, d).contains(c));
        }
        segmentless_from(p, c) + segmentless_children(p, d, k - 1)
    }
}

/// What the walk reports from a stack of pending candidates, the top (last)
/// one first.
pub open spec fn segmentless_pending(p: ProjectView, pending: Seq<Seq<char>>) -> Seq<DiagnosticView>
    decreases pending.len(),
{
    if pending.len() == 0 {
        Seq::empty()
    } else {
        segmentless_from(p, pending.last()) + segmentless_pending(p, pending.drop_last())
    }
}

proof fn lemma_segmentless_pending_children(p: ProjectView, rest: Seq<Seq<char>>, d: Seq<char>, k: int)
    requires
        0 <= k <= spec_child_directories(p, d).len(),
    ensures
        segmentless_pending(p, rest + spec_child_directories(p, d).take(k)) == segmentless_children(p, d, k)
            + segmentless_pending(p, rest),
    decreases k,
{
    let kids = spec_child_directories(p, d);
    if k == 0 {
        assert(rest + kids.take(0) =~= rest);
        assert(segmentless_children(p, d, 0) + segmentless_pending(p, rest) =~= segmentless_pending(p, rest));
    } else {
        let s = rest + kids.take(k);
        assert(s.drop_last() =~= rest + kids.take(k - 1));
        assert(s.last() == kids[k - 1]);
        lemma_segmentless_pending_children(p, rest, d, k - 1);
        assert(segmentless_pending(p, s) =~= segmentless_children(p, d, k) + segmentless_pending(p, rest));
    }
}

pub open spec fn segmentless_fold(p: ProjectView, ls: Seq<(Seq<char>, Seq<char>)>) -> Seq<DiagnosticView>
    decreases ls.len(),
{
    if ls.len() == 0 {
        Seq::empty()
    } else {
        let acc = segmentless_fold(p, ls.drop_last());
        let (name, path) = ls.last();
        if spec_is_sliced(name) {
            acc + segmentless_children(p, path, spec_child_directories(p, path).len() as int)
        } else {
            acc
        }
    }
}

/// `fsd/no-segmentless-slices`: a folder of a sliced layer that is neither a
/// slice nor a slice group.
pub open spec fn spec_no_segmentless_slices(p: ProjectView) -> Seq<DiagnosticView> {
    segmentless_fold(p, spec_layers(p))
}

pub fn no_segmentless_slices(project: &Project) -> (r: Vec<Diagnostic>)
    requires
        project.wf(),
    ensures
        r.deep_view() == spec_no_segmentless_slices(project.deep_view()),
{
    let layers = project.layers();
    let ghost lv = layers.deep_view();
    let ghost pv = project.deep_view();
    let mut r: Vec<Diagnostic> = Vec::new();
    let mut i: usize = 0;
    assert(r.deep_view() =~= segmentless_fold(pv, lv.take(0)));
    while i < layers.len()
        invariant
            project.wf(),
            pv == project.deep_view(),
            i <= layers@.len(),
            lv == layers.deep_view(),
            r.deep_view() == segmentless_fold(pv, lv.take(i as int)),
        decreases layers.len() - i,
    {
        assert(lv.take(i + 1).drop_last() =~= lv.take(i as int));
        assert(lv.take(i + 1).last() == layers@[i as int].deep_view());
        if Project::is_sliced(layers[i].0.as_str()) {
            let mut candidates = project.child_directories(layers[i].1.as_str());
            let ghost before = r.deep_view();
            let ghost target = before + segmentless_pending(pv, candidates.deep_view());
            proof {
                let kv = candidates.deep_view();
                lemma_segmentless_pending_children(pv, Seq::empty(), layers@[i as int].1@, kv.len() as int);
                assert(Seq::<Seq<char>>::empty() + kv.take(kv.len() as int) =~= kv);
                assert(segmentless_pending(pv, Seq::<Seq<char>>::empty()) =~= Seq::<DiagnosticView>::empty());
                assert(target =~= segmentless_fold(pv, lv.take(i + 1)));
            }
            while candidates.len() > 0
                invariant
                    project.wf(),
                    pv == project.deep_view(),
                    r.deep_view() + segmentless_pending(pv, candidates.deep_view()) == target,
                decreases walk_pending(pv, candidates.deep_view()).len(),
            {
                let ghost pend = candidates.deep_view();
                let ghost found = r.deep_view();
                let candidate = candidates.pop().unwrap();
                assert(candidates.deep_view() =~= pend.drop_last());
                let ghost c = pend.last();
                if is_slice_group(project, candidate.as_str()) {
                    let kids = project.child_directories(candidate.as_str());
                    let ghost kv = kids.deep_view();
                    let mut k: usize = 0;
                    while k < kids.len()
                        invariant
                            k <= kids@.len(),
                            kv == kids.deep_view(),
                            candidates.deep_view() == pend.drop_last() + kv.take(k as int),
                        decreases kids.len() - k,
                    {
                        let ghost prior = candidates.deep_view();
                        candidates.push(kids[k].clone());
                        assert(candidates.deep_view() =~= prior.push(kids@[k as int]@));
                        assert(kv.take(k + 1) =~= kv.take(k as int).push(kids@[k as int]@));
                        k = k + 1;
                    }
                    proof {
                        assert(kv.take(kv.len() as int) =~= kv);
                        lemma_segmentless_pending_children(pv, pend.drop_last(), c, kv.len() as int);
                        lemma_walk_pending_children(pv, pend.drop_last(), c, kv.len() as int);
                        assert(r.deep_view() + segmentless_pending(pv, candidates.deep_view())
                            =~= found + segmentless_pending(pv, pend));
                    }
                } else if !project.is_slice(candidate.as_str()) {
                    let d = Diagnostic::new(
                        NO_SEGMENTLESS_SLICES,
                        "This slice has no segments. Consider dividing the code inside into segments.",
                        candidate.as_str(),
                    );
                    r.push(d);
                    proof {
                        assert(r.deep_view() =~= found.push(d.deep_view()));
                        assert(r.deep_view() + segmentless_pending(pv, candidates.deep_view())
                            =~= found + segmentless_pending(pv, pend));
                    }
                } else {
                    proof {
                        assert(r.deep_view() + segmentless_pending(pv, candidates.deep_view())
                            =~= found + segmentless_pending(pv, pend));
                    }
                }
            }
            proof {
                assert(r.deep_view() + segmentless_pending(pv, candidates.deep_view()) =~= r.deep_view());
            }
        }
        i = i + 1;
    }
    assert(lv.take(layers@.len() as int) =~= lv);
    r
}

/// A slice name split at its last `/` into its group and its own name
/// (`str::rsplit_once`, with the empty group when there is no `/`).
pub open spec fn split_group(path: Seq<char>) -> (Seq<char>, Seq<char>) {
    let k = last_slash(path);
    if k < 0 {
        (Seq::empty(), path)
    } else {
        (path.take(k), path.skip(k + 1))
    }
}

/// Appends `v` to the list under key `k` of a key-sorted association sequence.
pub open spec fn group_add(m: Seq<(Seq<char>, Seq<Seq<char>>)>, k: Seq<char>, v: Seq<char>) -> Seq<(Seq<char>, Seq<Seq<char>>)> {
    let vs = match assoc_get(m, k) {
        Some(vs) => vs.push(v),
        None => seq![v],
    };
    assoc_put(m, k, vs, false)
}

pub open spec fn group_fold(names: Seq<Seq<char>>) -> Seq<(Seq<char>, Seq<Seq<char>>)>
    decreases names.len(),
{
    if names.len() == 0 {
        Seq::empty()
    } else {
        let (g, n) = split_group(names.last());
        group_add(group_fold(names.drop_last()), g, n)
    }
}

pub open spec fn keys_of<V>(m: Seq<(Seq<char>, V)>) -> Seq<Seq<char>> {
    m.map_values(|kv: (Seq<char>, V)| kv.0)
}

/// The slice names grouped by slice group, each group listing the names of
/// its slices without the group.
pub open spec fn spec_group_slices(names: Seq<Seq<char>>) -> Seq<(Seq<char>, Seq<Seq<char>>)> {
    group_fold(names)
}

fn split_group_exec(path: &String) -> (r: (String, String))
    ensures
        (r.0@, r.1@) == split_group(path@),
{
    let cs = chars_of(path.as_str());
    proof {
        lemma_last_slash(cs@);
    }
    match last_slash_index(&cs) {
        None => (String::new(), path.clone()),
        Some(k) => {
            let g = string_of_range(&cs, 0, k);
            let n = string_of_range(&cs, k + 1, cs.len());
            assert(g@ =~= cs@.take(k as int));
            assert(n@ =~= cs@.skip(k + 1));
            (g, n)
        },
    }
}

fn group_add_exec(m: &mut Vec<(String, Vec<String>)>, k: String, v: String)
    ensures
        final(m).deep_view() == group_add(old(m).deep_view(), k@, v@),
{
    let mut vs: Vec<String> = match assoc_find(m, k.as_str()) {
        Some(i) => m[i].1.clone(),
        None => Vec::new(),
    };
    let ghost before = vs.deep_view();
    vs.push(v);
    assert(vs.deep_view() =~= before.push(v@));
    proof {
        if assoc_get(old(m).deep_view(), k@) is None {
            assert(before =~= Seq::<Seq<char>>::empty());
            assert(vs.deep_view() =~= seq![v@]);
        }
    }
    assoc_insert(m, k, vs, false);
}

/// Groups slice names by slice group (see `spec_group_slices`).
pub fn group_slices(names: &Vec<String>) -> (r: Vec<(String, Vec<String>)>)
    ensures
        r.deep_view() == spec_group_slices(names.deep_view()),
{
    let ghost nv = names.deep_view();
    let mut r: Vec<(String, Vec<String>)> = Vec::new();
    let mut i: usize = 0;
    assert(r.deep_view() =~= group_fold(nv.take(0)));
    while i < names.len()
        invariant
            i <= names@.len(),
            nv == names.deep_view(),
            r.deep_view() == group_fold(nv.take(i as int)),
        decreases names.len() - i,
    {
        assert(nv.take(i + 1).drop_last() =~= nv.take(i as int));
        assert(nv.take(i + 1).last() == names@[i as int]@);
        let (g, n) = split_group_exec(&names[i]);
        group_add_exec(&mut r, g, n);
        i = i + 1;
    }
    assert(nv.take(names@.len() as int) =~= nv);
    r
}

/// The keys of an association vector, in order.
pub fn keys<V: DeepView>(m: &Vec<(String, V)>) -> (r: Vec<String>)
    ensures
        r.deep_view() == keys_of(m.deep_view()),
{
    let mut r: Vec<String> = Vec::new();
    let mut i: usize = 0;
    while i < m.len()
        invariant
            i <= m@.len(),
            r@.len() == i,
            forall|j: int| 0 <= j < i ==> r@[j]@ == m@[j].0@,
        decreases m.len() - i,
    {
        r.push(m[i].0.clone());
        i = i + 1;
    }
    assert(r.deep_view() =~= keys_of(m.deep_view()));
    r
}

/// The index of the first `/` in `s`, or -1.
pub open spec fn first_slash(s: Seq<char>) -> int
    decreases s.len(),
{
    if s.len() == 0 {
        -1
    } else if s[0] == '/' {
        0
    } else if first_slash(s.drop_first()) < 0 {
        -1
    } else {
        first_slash(s.drop_first()) + 1
    }
}

pub proof fn lemma_first_slash_at(s: Seq<char>, i: int)
    requires
        0 <= i <= s.len(),
        forall|j: int| 0 <= j < i ==> s[j] != '/',
        i < s.len() ==> s[i] == '/',
    ensures
        i == s.len() ==> first_slash(s) == -1,
        i < s.len() ==> first_slash(s) == i,
    decreases i,
{
    if i > 0 {
        assert forall|j: int| 0 <= j < i - 1 implies s.drop_first()[j] != '/' by {
            assert(s[j + 1] != '/');
        }
        lemma_first_slash_at(s.drop_first(), i - 1);
    }
}

/// `str::split('/')`: the pieces between separators, from left to right.
pub open spec fn split_slash(s: Seq<char>) -> Seq<Seq<char>>
    decreases s.len(),
{
    let k = first_slash(s);
    if k < 0 {
        seq![s]
    } else {
        proof {
            lemma_first_slash_bound(s);
        }
        seq![s.take(k)] + split_slash(s.skip(k + 1))
    }
}

pub proof fn lemma_first_slash_bound(s: Seq<char>)
    ensures
        -1 <= first_slash(s) < s.len(),
        first_slash(s) >= 0 ==> s[first_slash(s)] == '/',
        forall|j: int| 0 <= j < first_slash(s) ==> s[j] != '/',
        first_slash(s) < 0 ==> forall|j: int| 0 <= j < s.len() ==> s[j] != '/',
    decreases s.len(),
{
    if s.len() > 0 && s[0] != '/' {
        lemma_first_slash_bound(s.drop_first());
        assert forall|j: int| 0 < j < s.len() implies s[j] == s.drop_first()[j - 1] by {}
    }
}

/// The pieces of `s` between `/` separators (see `split_slash`).
pub fn split_on_slash(s: &String) -> (r: Vec<String>)
    ensures
        r.deep_view() == split_slash(s@),
{
    let cs = chars_of(s.as_str());
    let mut r: Vec<String> = Vec::new();
    let mut start: usize = 0;
    let mut i: usize = 0;
    assert(cs@.skip(0) =~= cs@);
    while i < cs.len()
        invariant
            start <= i <= cs@.len(),
            cs@ == s@,
            forall|j: int| start <= j < i ==> cs@[j] != '/',
            r.deep_view() + split_slash(cs@.skip(start as int)) == split_slash(cs@),
        decreases cs.len() - i,
    {
        if cs[i] == '/' {
            let piece = string_of_range(&cs, start, i);
            let ghost rest = cs@.skip(start as int);
            proof {
                lemma_first_slash_at(rest, i - start);
                assert forall|j: int| 0 <= j < i - start implies rest[j] != '/' by {
                    assert(rest[j] == cs@[start + j]);
                }
                lemma_first_slash_at(rest, i - start);
                assert(rest.take(i - start) =~= piece@);
                assert(rest.skip(i - start + 1) =~= cs@.skip(i + 1));
            }
            let ghost prev = r.deep_view();
            r.push(piece);
            assert(r.deep_view() =~= prev.push(piece@));
            assert(prev + split_slash(rest) =~= r.deep_view() + split_slash(cs@.skip(i + 1)));
            start = i + 1;
        }
        i = i + 1;
    }
    let piece = string_of_range(&cs, start, cs.len());
    let ghost rest = cs@.skip(start as int);
    proof {
        assert forall|j: int| 0 <= j < rest.len() implies rest[j] != '/' by {
            assert(rest[j] == cs@[start + j]);
        }
        lemma_first_slash_at(rest, rest.len() as int);
        assert(rest =~= piece@);
    }
    let ghost prev = r.deep_view();
    r.push(piece);
    assert(r.deep_view() =~= prev + seq![piece@]);
    r
}

/// `[..].join("/")`: the pieces with `/` between them.
pub open spec fn join_slash(parts: Seq<Seq<char>>) -> Seq<char>
    decreases parts.len(),
{
    if parts.len() == 0 {
        Seq::empty()
    } else if parts.len() == 1 {
        parts[0]
    } else {
        join_slash(parts.drop_last()) + seq!['/'] + parts.last()
    }
}

/// The first `count` pieces joined with `/` (see `join_slash`).
pub fn join_first(parts: &Vec<String>, count: usize) -> (r: String)
    requires
        count <= parts@.len(),
    ensures
        r@ == join_slash(parts.deep_view().take(count as int)),
{
    let ghost pv = parts.deep_view();
    let mut r = String::new();
    let mut i: usize = 0;
    assert(pv.take(0).len() == 0);
    while i < count
        invariant
            i <= count <= parts@.len(),
            pv == parts.deep_view(),
            r@ == join_slash(pv.take(i as int)),
        decreases count - i,
    {
        assert(pv.take(i + 1).drop_last() =~= pv.take(i as int));
        assert(pv.take(i + 1).last() == parts@[i as int]@);
        if i > 0 {
            push_char(&mut r, '/');
        }
        push_text(&mut r, parts[i].as_str());
        if i == 0 {
            assert(r@ =~= parts@[0]@);
        }
        i = i + 1;
    }
    r
}

pub open spec fn msg_ungrouped(layer_name: Seq<char>, count: nat) -> Seq<char> {
    "Layer \""@ + layer_name + "\" has "@ + decimal(count)
        + " ungrouped slices, which is above the recommended threshold of 20. Consider grouping them or moving the code inside to the layer where it's used."@
}

pub open spec fn msg_group_excess(group: Seq<char>, count: nat) -> Seq<char> {
    "Slice group \""@ + group + "\" has "@ + decimal(count)
        + " slices, which is above the recommended threshold of 20. Consider grouping them or moving the code inside to the layer where it's used."@
}

pub open spec fn excess_groups(
    layer_name: Seq<char>,
    layer_path: Seq<char>,
    groups: Seq<(Seq<char>, Seq<Seq<char>>)>,
) -> Seq<DiagnosticView>
    decreases groups.len(),
{
    if groups.len() == 0 {
        Seq::empty()
    } else {
        let acc = excess_groups(layer_name, layer_path, groups.drop_last());
        let (g, names) = groups.last();
        if names.len() <= 20 {
            acc
        } else if g.len() == 0 {
            acc.push(new_diagnostic(EXCESSIVE_SLICING@, msg_ungrouped(layer_name, names.len()), layer_path))
        } else {
            acc.push(new_diagnostic(EXCESSIVE_SLICING@, msg_group_excess(g, names.len()), spec_join(layer_path, g)))
        }
    }
}

pub open spec fn is_counted_layer(n: Seq<char>) -> bool {
    n == "entities"@ || n == "features"@ || n == "widgets"@ || n == "pages"@
}

pub open spec fn excessive_fold(p: ProjectView, ls: Seq<(Seq<char>, Seq<char>)>) -> Seq<DiagnosticView>
    decreases ls.len(),
{
    if ls.len() == 0 {
        Seq::empty()
    } else {
        let acc = excessive_fold(p, ls.drop_last());
        let (name, path) = ls.last();
        if is_counted_layer(name) {
            acc + excess_groups(name, path, spec_group_slices(keys_of(spec_slices(p, path))))
        } else {
            acc
        }
    }
}

/// `fsd/excessive-slicing`: a slice group, or the ungrouped slices of a layer
/// of entities, features, widgets or pages, with more than 20 slices.
pub open spec fn spec_excessive_slicing(p: ProjectView) -> Seq<DiagnosticView> {
    excessive_fold(p, spec_layers(p))
}

pub fn excessive_slicing(project: &Project) -> (r: Vec<Diagnostic>)
    requires
        project.wf(),
    ensures
        r.deep_view() == spec_excessive_slicing(project.deep_view()),
{
    let layers = project.layers();
    let ghost lv = layers.deep_view();
    let ghost pv = project.deep_view();
    let mut r: Vec<Diagnostic> = Vec::new();
    let mut i: usize = 0;
    assert(r.deep_view() =~= excessive_fold(pv, lv.take(0)));
    while i < layers.len()
        invariant
            project.wf(),
            pv == project.deep_view(),
            i <= layers@.len(),
            lv == layers.deep_view(),
            r.deep_view() == excessive_fold(pv, lv.take(i as int)),
        decreases layers.len() - i,
    {
        assert(lv.take(i + 1).drop_last() =~= lv.take(i as int));
        assert(lv.take(i + 1).last() == layers@[i as int].deep_view());
        let name = &layers[i].0;
        let path = &layers[i].1;
        if text_eq(name.as_str(), "entities") || text_eq(name.as_str(), "features") || text_eq(
            name.as_str(),
            "widgets",
        ) || text_eq(name.as_str(), "pages") {
            let groups = group_slices(&keys(&project.slices(name.as_str(), path.as_str())));
            let ghost gv = groups.deep_view();
            let ghost before = r.deep_view();
            let mut j: usize = 0;
            assert(excess_groups(name@, path@, gv.take(0)) =~= Seq::<DiagnosticView>::empty());
            while j < groups.len()
                invariant
                    j <= groups@.len(),
                    gv == groups.deep_view(),
                    r.deep_view() == before + excess_groups(name@, path@, gv.take(j as int)),
                decreases groups.len() - j,
            {
                assert(gv.take(j + 1).drop_last() =~= gv.take(j as int));
                assert(gv.take(j + 1).last() == groups@[j as int].deep_view());
                let g = &groups[j].0;
                let count = groups[j].1.len();
                if count > 20 {
                    let ghost prev = r.deep_view();
                    let num = decimal_string(count);
                    let d = if g.as_str().is_empty() {
                        let message = cat5(
                            "Layer \"",
                            name.as_str(),
                            "\" has ",
                            num.as_str(),
                            " ungrouped slices, which is above the recommended threshold of 20. Consider grouping them or moving the code inside to the layer where it's used.",
                        );
                        Diagnostic::new(EXCESSIVE_SLICING, message.as_str(), path.as_str())
                    } else {
                        let message = cat5(
                            "Slice group \"",
                            g.as_str(),
                            "\" has ",
                            num.as_str(),
                            " slices, which is above the recommended threshold of 20. Consider grouping them or moving the code inside to the layer where it's used.",
                        );
                        Diagnostic::new(EXCESSIVE_SLICING, message.as_str(), join(path.as_str(), g.as_str()).as_str())
                    };
                    r.push(d);
                    assert(r.deep_view() =~= prev.push(d.deep_view()));
                }
                j = j + 1;
            }
            assert(gv.take(groups@.len() as int) =~= gv);
        }
        i = i + 1;
    }
    assert(lv.take(layers@.len() as int) =~= lv);
    r
}

/// Names that are neither singular nor plural.
pub open spec fn is_neutral_name(n: Seq<char>) -> bool {
    let l = lowercase(n);
    l == "k8s"@ || l == "kubernetes"@ || l == "media"@
}

pub open spec fn without_neutral(names: Seq<Seq<char>>) -> Seq<Seq<char>>
    decreases names.len(),
{
    if names.len() == 0 {
        Seq::empty()
    } else if is_neutral_name(names.last()) {
        without_neutral(names.drop_last())
    } else {
        without_neutral(names.drop_last()).push(names.last())
    }
}

/// For each name, its plural and its singular form: `(name, plural, singular)`.
pub type PluralForms = Seq<(Seq<char>, Seq<char>, Seq<char>)>;

/// The form of `n` for `count` (1: singular, otherwise plural) that the last
/// entry of `forms` for `n` gives; a name without an entry keeps its form.
pub open spec fn form_of(forms: PluralForms, n: Seq<char>, count: int) -> Seq<char>
    decreases forms.len(),
{
    if forms.len() == 0 {
        n
    } else if forms.last().0 == n {
        if count == 1 {
            forms.last().2
        } else {
            forms.last().1
        }
    } else {
        form_of(forms.drop_last(), n, count)
    }
}

/// `forms` has one entry for each of `names`, in order, with the plural
/// (count 2) and the singular (count 1) that `pluralizer` gave for the name.
pub open spec fn forms_for(forms: PluralForms, names: Seq<Seq<char>>) -> bool {
    &&& forms.len() == names.len()
    &&& forall|i: int|
        0 <= i < forms.len() ==> #[trigger] forms[i].0 == names[i] && pluralized(names[i], 2, false, forms[i].1)
            && pluralized(names[i], 1, false, forms[i].2)
}

/// A name already in plural form: its plural form is itself.
pub open spec fn is_plural_name(forms: PluralForms, n: Seq<char>) -> bool {
    form_of(forms, n, 2) == n
}

pub open spec fn names_by_number(forms: PluralForms, names: Seq<Seq<char>>, plural: bool) -> Seq<Seq<char>>
    decreases names.len(),
{
    if names.len() == 0 {
        Seq::empty()
    } else if is_plural_name(forms, names.last()) == plural {
        names_by_number(forms, names.drop_last(), plural).push(names.last())
    } else {
        names_by_number(forms, names.drop_last(), plural)
    }
}

/// Renames of slices in `location` to the form for `count` (2: plural, 1: singular).
pub open spec fn rename_fixes(forms: PluralForms, location: Seq<char>, names: Seq<Seq<char>>, count: int) -> Seq<FixView> {
    names.map_values(
        |n: Seq<char>| FixView::Rename { path: spec_join(location, n), new_name: form_of(forms, n, count) },
    )
}

pub open spec fn naming_diag(forms: PluralForms, location: Seq<char>, plural: Seq<Seq<char>>, singular: Seq<Seq<char>>) -> DiagnosticView {
    if plural.len() >= singular.len() {
        with_fixes_view(
            new_diagnostic(
                INCONSISTENT_NAMING@,
                "Inconsistent pluralization of slice names. Prefer all plural names"@,
                location,
            ),
            rename_fixes(forms, location, singular, 2),
        )
    } else {
        with_fixes_view(
            new_diagnostic(
                INCONSISTENT_NAMING@,
                "Inconsistent pluralization of slice names. Prefer all singular names"@,
                location,
            ),
            rename_fixes(forms, location, plural, 1),
        )
    }
}

pub open spec fn naming_groups(forms: PluralForms, entities: Seq<char>, groups: Seq<(Seq<char>, Seq<Seq<char>>)>) -> Seq<DiagnosticView>
    decreases groups.len(),
{
    if groups.len() == 0 {
        Seq::empty()
    } else {
        let acc = naming_groups(forms, entities, groups.drop_last());
        let (g, all) = groups.last();
        let names = without_neutral(all);
        let plural = names_by_number(forms, names, true);
        let singular = names_by_number(forms, names, false);
        if plural.len() == 0 || singular.len() == 0 {
            acc
        } else {
            let location = if g.len() == 0 { entities } else { spec_join(entities, g) };
            acc.push(naming_diag(forms, location, plural, singular))
        }
    }
}

/// `fsd/inconsistent-naming`: a group of entity slices that mixes plural and
/// singular names, with renames to the majority form (plural on a tie); the
/// plural and singular form of each name are those that `forms` lists.
pub open spec fn spec_inconsistent_naming(p: ProjectView, forms: PluralForms) -> Seq<DiagnosticView> {
    match assoc_get(spec_layers(p), "entities"@) {
        None => Seq::empty(),
        Some(entities) => naming_groups(forms, entities, spec_group_slices(keys_of(spec_slices(p, entities)))),
    }
}

/// The names of `dirs`, in order.
pub open spec fn folder_names(dirs: Seq<Seq<char>>) -> Seq<Seq<char>>
    decreases dirs.len(),
{
    if dirs.len() == 0 {
        Seq::empty()
    } else {
        let r = folder_names(dirs.drop_last());
        match spec_file_name_of(dirs.last()) {
            Some(n) => r.push(n),
            None => r,
        }
    }
}

/// The names whose plural and singular forms the naming rule may ask for:
/// the name of every folder of the entities layer, the layer included.
pub open spec fn spec_naming_candidates(p: ProjectView) -> Seq<Seq<char>> {
    match assoc_get(spec_layers(p), "entities"@) {
        None => Seq::empty(),
        Some(entities) => folder_names(spec_descendant_directories(p, entities)),
    }
}

/// The form of `n` for `count` (see `form_of`).
pub fn form_lookup(forms: &Vec<(String, String, String)>, n: &str, count: isize) -> (r: String)
    ensures
        r@ == form_of(forms.deep_view(), n@, count as int),
{
    let ghost fv = forms.deep_view();
    let mut i: usize = forms.len();
    assert(fv.take(i as int) =~= fv);
    while i > 0
        invariant
            i <= fv.len(),
            fv == forms.deep_view(),
            form_of(fv.take(i as int), n@, count as int) == form_of(fv, n@, count as int),
        decreases i,
    {
        assert(fv.take(i as int).drop_last() =~= fv.take(i - 1));
        assert(fv.take(i as int).last() == forms@[i - 1].deep_view());
        if text_eq(forms[i - 1].0.as_str(), n) {
            if count == 1 {
                return forms[i - 1].2.clone();
            } else {
                return forms[i - 1].1.clone();
            }
        }
        i = i - 1;
    }
    assert(fv.take(0) =~= PluralForms::empty());
    n.to_owned()
}

/// The names of the folders of the entities layer (see `spec_naming_candidates`).
pub fn naming_candidates(project: &Project) -> (r: Vec<String>)
    requires
        project.wf(),
    ensures
        r.deep_view() == spec_naming_candidates(project.deep_view()),
{
    let layers = project.layers();
    let mut r: Vec<String> = Vec::new();
    match assoc_find(&layers, "entities") {
        None => {
            assert(r.deep_view() =~= Seq::<Seq<char>>::empty());
        },
        Some(k) => {
            let dirs = project.descendant_directories(layers[k].1.as_str());
            let ghost dv = dirs.deep_view();
            let mut i: usize = 0;
            assert(r.deep_view() =~= folder_names(dv.take(0)));
            while i < dirs.len()
                invariant
                    i <= dirs@.len(),
                    dv == dirs.deep_view(),
                    r.deep_view() == folder_names(dv.take(i as int)),
                decreases dirs.len() - i,
            {
                assert(dv.take(i + 1).drop_last() =~= dv.take(i as int));
                assert(dv.take(i + 1).last() == dirs@[i as int]@);
                match file_name(dirs[i].as_str()) {
                    Some(n) => {
                        let ghost prev = r.deep_view();
                        r.push(n);
                        assert(r.deep_view() =~= prev.push(n@));
                    },
                    None => {},
                }
                i = i + 1;
            }
            assert(dv.take(dv.len() as int) =~= dv);
        },
    }
    r
}

/// The plural and singular form of each of `names`, as `pluralizer` gives
/// them at the time of the call.
pub fn plural_forms(names: &Vec<String>) -> (r: Vec<(String, String, String)>)
    ensures
        forms_for(r.deep_view(), names.deep_view()),
{
    let mut r: Vec<(String, String, String)> = Vec::new();
    let mut i: usize = 0;
    while i < names.len()
        invariant
            i <= names@.len(),
            r@.len() == i,
            forall|j: int|
                0 <= j < i ==> #[trigger] r@[j].0@ == names@[j]@ && pluralized(names@[j]@, 2, false, r@[j].1@)
                    && pluralized(names@[j]@, 1, false, r@[j].2@),
        decreases names.len() - i,
    {
        let plural = pluralize(names[i].as_str(), 2, false);
        let singular = pluralize(names[i].as_str(), 1, false);
        r.push((names[i].clone(), plural, singular));
        i = i + 1;
    }
    proof {
        assert forall|j: int| 0 <= j < r.deep_view().len() implies #[trigger] r.deep_view()[j].0 == names.deep_view()[j]
            && pluralized(names.deep_view()[j], 2, false, r.deep_view()[j].1) && pluralized(
            names.deep_view()[j],
            1,
            false,
            r.deep_view()[j].2,
        ) by {
            assert(r.deep_view()[j] == r@[j].deep_view());
            assert(names.deep_view()[j] == names@[j]@);
        }
    }
    r
}

fn rename_fixes_exec(forms: &Vec<(String, String, String)>, location: &String, names: &Vec<String>, count: isize) -> (r: Vec<Fix>)
    ensures
        r.deep_view() == rename_fixes(forms.deep_view(), location@, names.deep_view(), count as int),
{
    let mut r: Vec<Fix> = Vec::new();
    let mut i: usize = 0;
    while i < names.len()
        invariant
            i <= names@.len(),
            r@.len() == i,
            forall|j: int| 0 <= j < i ==> r@[j].deep_view() == (FixView::Rename {
                path: spec_join(location@, names@[j]@),
                new_name: form_of(forms.deep_view(), names@[j]@, count as int),
            }),
        decreases names.len() - i,
    {
        r.push(Fix::Rename {
            path: join(location.as_str(), names[i].as_str()),
            new_name: form_lookup(forms, names[i].as_str(), count),
        });
        i = i + 1;
    }
    assert(r.deep_view() =~= rename_fixes(forms.deep_view(), location@, names.deep_view(), count as int));
    r
}

/// `fsd/inconsistent-naming` with the plural and singular forms that
/// `forms` lists (see `spec_inconsistent_naming`).
pub fn inconsistent_naming_with(project: &Project, forms: &Vec<(String, String, String)>) -> (r: Vec<Diagnostic>)
    requires
        project.wf(),
    ensures
        r.deep_view() == spec_inconsistent_naming(project.deep_view(), forms.deep_view()),
{
    let ghost fv = forms.deep_view();
    let layers = project.layers();
    let entities = match assoc_find(&layers, "entities") {
        None => {
            let r: Vec<Diagnostic> = Vec::new();
            assert(r.deep_view() =~= Seq::<DiagnosticView>::empty());
            return r;
        },
        Some(k) => layers[k].1.clone(),
    };
    let groups = group_slices(&keys(&project.slices("entities", entities.as_str())));
    let ghost gv = groups.deep_view();
    let mut r: Vec<Diagnostic> = Vec::new();
    let mut i: usize = 0;
    assert(r.deep_view() =~= naming_groups(fv, entities@, gv.take(0)));
    while i < groups.len()
        invariant
            i <= groups@.len(),
            gv == groups.deep_view(),
            r.deep_view() == naming_groups(fv, entities@, gv.take(i as int)),
            fv == forms.deep_view(),
        decreases groups.len() - i,
    {
        assert(gv.take(i + 1).drop_last() =~= gv.take(i as int));
        assert(gv.take(i + 1).last() == groups@[i as int].deep_view());
        let g = &groups[i].0;
        let all = &groups[i].1;
        let ghost av = all.deep_view();
        let mut plural: Vec<String> = Vec::new();
        let mut singular: Vec<String> = Vec::new();
        let mut j: usize = 0;
        assert(without_neutral(av.take(0)).len() == 0);
        while j < all.len()
            invariant
                j <= all@.len(),
                av == all.deep_view(),
                fv == forms.deep_view(),
                plural.deep_view() == names_by_number(fv, without_neutral(av.take(j as int)), true),
                singular.deep_view() == names_by_number(fv, without_neutral(av.take(j as int)), false),
            decreases all.len() - j,
        {
            assert(av.take(j + 1).drop_last() =~= av.take(j as int));
            assert(av.take(j + 1).last() == all@[j as int]@);
            let n = &all[j];
            let low = to_lowercase(n.as_str());
            let neutral = text_eq(low.as_str(), "k8s") || text_eq(low.as_str(), "kubernetes")
                || text_eq(low.as_str(), "media");
            if !neutral {
                let ghost w = without_neutral(av.take(j as int));
                assert(without_neutral(av.take(j + 1)) =~= w.push(n@));
                assert(w.push(n@).drop_last() =~= w);
                let pl = form_lookup(forms, n.as_str(), 2);
                if pl == *n {
                    let ghost prev = plural.deep_view();
                    plural.push(n.clone());
                    assert(plural.deep_view() =~= prev.push(n@));
                } else {
                    let ghost prev = singular.deep_view();
                    singular.push(n.clone());
                    assert(singular.deep_view() =~= prev.push(n@));
                }
            }
            j = j + 1;
        }
        assert(av.take(all@.len() as int) =~= av);
        if plural.len() > 0 && singular.len() > 0 {
            let location = if g.as_str().is_empty() {
                entities.clone()
            } else {
                join(entities.as_str(), g.as_str())
            };
            let d = if plural.len() >= singular.len() {
                Diagnostic::new(
                    INCONSISTENT_NAMING,
                    "Inconsistent pluralization of slice names. Prefer all plural names",
                    location.as_str(),
                ).with_fixes(rename_fixes_exec(forms, &location, &singular, 2))
            } else {
                Diagnostic::new(
                    INCONSISTENT_NAMING,
                    "Inconsistent pluralization of slice names. Prefer all singular names",
                    location.as_str(),
                ).with_fixes(rename_fixes_exec(forms, &location, &plural, 1))
            };
            let ghost prev = r.deep_view();
            r.push(d);
            assert(r.deep_view() =~= prev.push(d.deep_view()));
        }
        i = i + 1;
    }
    assert(gv.take(groups@.len() as int) =~= gv);
    r
}

/// `fsd/inconsistent-naming`: asks `pluralizer` for the forms of every
/// candidate name (see `spec_naming_candidates`), then reports with them.
/// Whatever forms it gave, the result is the report for those forms.
pub fn inconsistent_naming(project: &Project) -> (r: Vec<Diagnostic>)
    requires
        project.wf(),
    ensures
        exists|forms: PluralForms|
            forms_for(forms, spec_naming_candidates(project.deep_view())) && r.deep_view()
                == spec_inconsistent_naming(project.deep_view(), forms),
{
    let names = naming_candidates(project);
    let forms = plural_forms(&names);
    let r = inconsistent_naming_with(project, &forms);
    assert(forms_for(forms.deep_view(), spec_naming_candidates(project.deep_view())));
    r
}

/// A missing public API: a diagnostic at `path` whose fix creates an empty `index.js` there.
pub open spec fn missing_public_api_view(message: Seq<char>, path: Seq<char>) -> DiagnosticView {
    with_fixes_view(
        new_diagnostic(PUBLIC_API@, message, path),
        seq![FixView::CreateFile { path: spec_join(path, "index.js"@), content: Seq::empty() }],
    )
}

fn missing_public_api(message: &str, path: &str) -> (r: Diagnostic)
    ensures
        r.deep_view() == missing_public_api_view(message@, path@),
{
    let mut fixes: Vec<Fix> = Vec::new();
    fixes.push(Fix::CreateFile { path: join(path, "index.js"), content: String::new() });
    let r = Diagnostic::new(PUBLIC_API, message, path).with_fixes(fixes);
    assert(r.deep_view().fixes =~= seq![FixView::CreateFile { path: spec_join(path@, "index.js"@), content: Seq::empty() }]);
    r
}

/// The index files of a segment: a file segment is its own index.
pub open spec fn spec_entry_indexes(p: ProjectView, e: EntryView) -> Seq<Seq<char>> {
    match e.kind {
        EntryKind::File => seq![e.path],
        EntryKind::Folder => spec_indexes(p, e.path),
    }
}

pub open spec fn slices_missing(p: ProjectView, sl: Seq<(Seq<char>, Seq<char>)>) -> Seq<DiagnosticView>
    decreases sl.len(),
{
    if sl.len() == 0 {
        Seq::empty()
    } else {
        let acc = slices_missing(p, sl.drop_last());
        let sp = sl.last().1;
        if spec_indexes(p, sp).len() == 0 {
            acc.push(missing_public_api_view("This slice is missing a public API."@, sp))
        } else {
            acc
        }
    }
}

pub open spec fn msg_top_level(segment_name: Seq<char>) -> Seq<char> {
    "This top-level folder in shared/"@ + segment_name + " is missing a public API."@
}

pub open spec fn folders_missing(p: ProjectView, segment_name: Seq<char>, dirs: Seq<Seq<char>>) -> Seq<DiagnosticView>
    decreases dirs.len(),
{
    if dirs.len() == 0 {
        Seq::empty()
    } else {
        let acc = folders_missing(p, segment_name, dirs.drop_last());
        if spec_indexes(p, dirs.last()).len() == 0 {
            acc.push(missing_public_api_view(msg_top_level(segment_name), dirs.last()))
        } else {
            acc
        }
    }
}

pub open spec fn segments_missing(p: ProjectView, sg: Seq<(Seq<char>, EntryView)>) -> Seq<DiagnosticView>
    decreases sg.len(),
{
    if sg.len() == 0 {
        Seq::empty()
    } else {
        let acc = segments_missing(p, sg.drop_last());
        let (name, e) = sg.last();
        if spec_entry_indexes(p, e).len() != 0 {
            acc
        } else if !(name == "ui"@ || name == "lib"@) {
            acc.push(missing_public_api_view("This segment is missing a public API."@, e.path))
        } else if e.kind == EntryKind::Folder {
            acc + folders_missing(p, name, spec_child_directories(p, e.path))
        } else {
            acc
        }
    }
}

pub open spec fn public_api_fold(p: ProjectView, ls: Seq<(Seq<char>, Seq<char>)>) -> Seq<DiagnosticView>
    decreases ls.len(),
{
    if ls.len() == 0 {
        Seq::empty()
    } else {
        let acc = public_api_fold(p, ls.drop_last());
        let (name, path) = ls.last();
        if spec_is_sliced(name) {
            acc + slices_missing(p, spec_slices(p, path))
        } else if name != "app"@ {
            acc + segments_missing(p, spec_segments(p, path))
        } else {
            acc
        }
    }
}

/// `fsd/public-api`: a slice without an index file; in `shared`, a segment
/// without one, or for `ui` and `lib`, a top-level folder without one.
pub open spec fn spec_public_api(p: ProjectView) -> Seq<DiagnosticView> {
    public_api_fold(p, spec_layers(p))
}

/// The index files that stand for an entry: a file stands for itself, a
/// folder has the index files inside it.
fn entry_indexes(project: &Project, e: &crate::fsd::Entry) -> (r: Vec<String>)
    requires
        project.wf(),
    ensures
        r.deep_view() == spec_entry_indexes(project.deep_view(), e.deep_view()),
{
    match e.kind {
        EntryKind::File => {
            let r = vec![e.path.clone()];
            assert(r.deep_view() =~= seq![e.path@]);
            r
        },
        EntryKind::Folder => project.indexes(e.path.as_str()),
    }
}

fn folders_missing_exec(project: &Project, segment_name: &String, dirs: &Vec<String>, r: &mut Vec<Diagnostic>)
    requires
        project.wf(),
    ensures
        final(r).deep_view() == old(r).deep_view() + folders_missing(project.deep_view(), segment_name@, dirs.deep_view()),
{
    let ghost dv = dirs.deep_view();
    let ghost before = old(r).deep_view();
    let message = cat3("This top-level folder in shared/", segment_name.as_str(), " is missing a public API.");
    let mut i: usize = 0;
    assert(folders_missing(project.deep_view(), segment_name@, dv.take(0)) =~= Seq::<DiagnosticView>::empty());
    while i < dirs.len()
        invariant
            project.wf(),
            i <= dirs@.len(),
            dv == dirs.deep_view(),
            before == old(r).deep_view(),
            message@ == msg_top_level(segment_name@),
            r.deep_view() == before + folders_missing(project.deep_view(), segment_name@, dv.take(i as int)),
        decreases dirs.len() - i,
    {
        assert(dv.take(i + 1).drop_last() =~= dv.take(i as int));
        assert(dv.take(i + 1).last() == dirs@[i as int]@);
        if project.indexes(dirs[i].as_str()).len() == 0 {
            let ghost prev = r.deep_view();
            let d = missing_public_api(message.as_str(), dirs[i].as_str());
            r.push(d);
            assert(r.deep_view() =~= prev.push(d.deep_view()));
        }
        i = i + 1;
    }
    assert(dv.take(dirs@.len() as int) =~= dv);
}

pub fn public_api(project: &Project) -> (r: Vec<Diagnostic>)
    requires
        project.wf(),
    ensures
        r.deep_view() == spec_public_api(project.deep_view()),
{
    let layers = project.layers();
    let ghost lv = layers.deep_view();
    let ghost pv = project.deep_view();
    let mut r: Vec<Diagnostic> = Vec::new();
    let mut i: usize = 0;
    assert(r.deep_view() =~= public_api_fold(pv, lv.take(0)));
    while i < layers.len()
        invariant
            project.wf(),
            pv == project.deep_view(),
            i <= layers@.len(),
            lv == layers.deep_view(),
            r.deep_view() == public_api_fold(pv, lv.take(i as int)),
        decreases layers.len() - i,
    {
        assert(lv.take(i + 1).drop_last() =~= lv.take(i as int));
        assert(lv.take(i + 1).last() == layers@[i as int].deep_view());
        let name = &layers[i].0;
        let path = &layers[i].1;
        if Project::is_sliced(name.as_str()) {
            let sl = project.slices(name.as_str(), path.as_str());
            let ghost slv = sl.deep_view();
            let ghost before = r.deep_view();
            let mut j: usize = 0;
            assert(slices_missing(pv, slv.take(0)) =~= Seq::<DiagnosticView>::empty());
            while j < sl.len()
                invariant
                    project.wf(),
                    pv == project.deep_view(),
                    j <= sl@.len(),
                    slv == sl.deep_view(),
                    r.deep_view() == before + slices_missing(pv, slv.take(j as int)),
                decreases sl.len() - j,
            {
                assert(slv.take(j + 1).drop_last() =~= slv.take(j as int));
                assert(slv.take(j + 1).last() == sl@[j as int].deep_view());
                if project.indexes(sl[j].1.as_str()).len() == 0 {
                    let ghost prev = r.deep_view();
                    let d = missing_public_api("This slice is missing a public API.", sl[j].1.as_str());
                    r.push(d);
                    assert(r.deep_view() =~= prev.push(d.deep_view()));
                }
                j = j + 1;
            }
            assert(slv.take(sl@.len() as int) =~= slv);
        } else if !text_eq(name.as_str(), "app") {
            let sg = project.segments(path.as_str());
            let ghost sgv = sg.deep_view();
            let ghost before = r.deep_view();
            let mut j: usize = 0;
            assert(segments_missing(pv, sgv.take(0)) =~= Seq::<DiagnosticView>::empty());
            while j < sg.len()
                invariant
                    project.wf(),
                    pv == project.deep_view(),
                    j <= sg@.len(),
                    sgv == sg.deep_view(),
                    r.deep_view() == before + segments_missing(pv, sgv.take(j as int)),
                decreases sg.len() - j,
            {
                assert(sgv.take(j + 1).drop_last() =~= sgv.take(j as int));
                assert(sgv.take(j + 1).last() == sg@[j as int].deep_view());
                let seg_name = &sg[j].0;
                let seg = &sg[j].1;
                if entry_indexes(project, seg).len() == 0 {
                    if !(text_eq(seg_name.as_str(), "ui") || text_eq(seg_name.as_str(), "lib")) {
                        let ghost prev = r.deep_view();
                        let d = missing_public_api("This segment is missing a public API.", seg.path.as_str());
                        r.push(d);
                        assert(r.deep_view() =~= prev.push(d.deep_view()));
                    } else if seg.kind == EntryKind::Folder {
                        let kids = project.child_directories(seg.path.as_str());
                        let ghost prev = r.deep_view();
                        folders_missing_exec(project, seg_name, &kids, &mut r);
                        assert(before + segments_missing(pv, sgv.take(j + 1)) =~= prev + folders_missing(pv, seg_name@, kids.deep_view()));
                    }
                }
                j = j + 1;
            }
            assert(sgv.take(sg@.len() as int) =~= sgv);
        }
        i = i + 1;
    }
    assert(lv.take(layers@.len() as int) =~= lv);
    r
}

/// Whether `v` holds `x`.
pub fn contains_text(v: &Vec<String>, x: &str) -> (r: bool)
    ensures
        r == v.deep_view().contains(x@),
{
    let mut i: usize = 0;
    while i < v.len()
        invariant
            i <= v@.len(),
            forall|j: int| 0 <= j < i ==> v.deep_view()[j] != x@,
        decreases v.len() - i,
    {
        assert(v.deep_view()[i as int] == v@[i as int]@);
        if text_eq(v[i].as_str(), x) {
            return true;
        }
        i = i + 1;
    }
    false
}

/// The index of the first of `parts` that `names` holds, or -1.
pub open spec fn first_held(parts: Seq<Seq<char>>, names: Seq<Seq<char>>) -> int
    decreases parts.len(),
{
    if parts.len() == 0 {
        -1
    } else if names.contains(parts[0]) {
        0
    } else if first_held(parts.drop_first(), names) < 0 {
        -1
    } else {
        first_held(parts.drop_first(), names) + 1
    }
}

proof fn lemma_first_held(parts: Seq<Seq<char>>, names: Seq<Seq<char>>, i: int)
    requires
        0 <= i <= parts.len(),
        forall|j: int| 0 <= j < i ==> !names.contains(parts[j]),
        i < parts.len() ==> names.contains(parts[i]),
    ensures
        i == parts.len() ==> first_held(parts, names) == -1,
        i < parts.len() ==> first_held(parts, names) == i,
    decreases i,
{
    if i > 0 {
        assert forall|j: int| 0 <= j < i - 1 implies !names.contains(parts.drop_first()[j]) by {
            assert(parts.drop_first()[j] == parts[j + 1]);
        }
        lemma_first_held(parts.drop_first(), names, i - 1);
    }
}

pub open spec fn msg_same_name(name: Seq<char>) -> Seq<char> {
    "Slice \""@ + name + "\" could be confused with a segment from Shared with the same name"@
}

pub open spec fn msg_segment_name(name: Seq<char>, matching: Seq<char>) -> Seq<char> {
    "Slice \""@ + name + "\" could be confused with a segment \""@ + matching + "\" from Shared"@
}

pub open spec fn msg_group_name(group: Seq<char>, matching: Seq<char>) -> Seq<char> {
    "Slice group \""@ + group + "\" could be confused with a segment \""@ + matching + "\" from Shared"@
}

/// The diagnostic for one slice whose name, or a group in it, shares a name
/// with a segment of `shared`.
pub open spec fn ambiguous_one(
    p: ProjectView,
    layers: Seq<(Seq<char>, Seq<char>)>,
    shared_names: Seq<Seq<char>>,
    s: SliceView,
) -> Seq<DiagnosticView> {
    let parts = split_slash(s.name);
    let idx = first_held(parts, shared_names);
    if idx < 0 {
        Seq::empty()
    } else {
        let matching = parts[idx];
        if matching == s.name {
            seq![new_diagnostic(AMBIGUOUS_SLICE_NAMES@, msg_same_name(s.name), s.path)]
        } else if idx == parts.len() - 1 {
            seq![new_diagnostic(AMBIGUOUS_SLICE_NAMES@, msg_segment_name(s.name, matching), s.path)]
        } else {
            match assoc_get(layers, s.layer_name) {
                None => Seq::empty(),
                Some(lp) => {
                    let g = join_slash(parts.take(idx + 1));
                    let gp = spec_join(lp, g);
                    let par = match spec_parent(gp) {
                        Some(q) => q,
                        None => lp,
                    };
                    if spec_child_directories(p, par).contains(gp) {
                        seq![new_diagnostic(AMBIGUOUS_SLICE_NAMES@, msg_group_name(g, matching), gp)]
                    } else {
                        Seq::empty()
                    }
                },
            }
        }
    }
}

pub open spec fn ambiguous_fold(
    p: ProjectView,
    layers: Seq<(Seq<char>, Seq<char>)>,
    shared_names: Seq<Seq<char>>,
    slices: Seq<SliceView>,
) -> Seq<DiagnosticView>
    decreases slices.len(),
{
    if slices.len() == 0 {
        Seq::empty()
    } else {
        ambiguous_fold(p, layers, shared_names, slices.drop_last()) + ambiguous_one(
            p,
            layers,
            shared_names,
            slices.last(),
        )
    }
}

/// `fsd/ambiguous-slice-names`: a slice, or a slice group, named like a
/// segment of `shared`.
pub open spec fn spec_ambiguous_slice_names(p: ProjectView) -> Seq<DiagnosticView> {
    match assoc_get(spec_layers(p), "shared"@) {
        None => Seq::empty(),
        Some(shared) => ambiguous_fold(
            p,
            spec_layers(p),
            keys_of(spec_segments(p, shared)),
            spec_all_slices(p),
        ),
    }
}

fn ambiguous_one_exec(
    project: &Project,
    layers: &Vec<(String, String)>,
    shared_names: &Vec<String>,
    slice: &crate::fsd::Slice,
) -> (r: Vec<Diagnostic>)
    requires
        project.wf(),
    ensures
        r.deep_view() == ambiguous_one(project.deep_view(), layers.deep_view(), shared_names.deep_view(), slice.deep_view()),
{
    let parts = split_on_slash(&slice.name);
    let ghost pv = parts.deep_view();
    let ghost names = shared_names.deep_view();
    let mut idx: usize = 0;
    while idx < parts.len() && !contains_text(shared_names, parts[idx].as_str())
        invariant
            idx <= parts@.len(),
            pv == parts.deep_view(),
            names == shared_names.deep_view(),
            forall|j: int| 0 <= j < idx ==> !names.contains(pv[j]),
        decreases parts.len() - idx,
    {
        assert(pv[idx as int] == parts@[idx as int]@);
        idx = idx + 1;
    }
    if idx < parts.len() {
        assert(pv[idx as int] == parts@[idx as int]@);
    }
    proof {
        lemma_first_held(pv, names, idx as int);
    }
    let mut r: Vec<Diagnostic> = Vec::new();
    if idx == parts.len() {
        assert(r.deep_view() =~= Seq::<DiagnosticView>::empty());
        return r;
    }
    let matching = &parts[idx];
    if *matching == slice.name {
        let message = cat3("Slice \"", slice.name.as_str(), "\" could be confused with a segment from Shared with the same name");
        r.push(Diagnostic::new(AMBIGUOUS_SLICE_NAMES, message.as_str(), slice.path.as_str()));
    } else if idx == parts.len() - 1 {
        let message = cat5(
            "Slice \"",
            slice.name.as_str(),
            "\" could be confused with a segment \"",
            matching.as_str(),
            "\" from Shared",
        );
        r.push(Diagnostic::new(AMBIGUOUS_SLICE_NAMES, message.as_str(), slice.path.as_str()));
    } else {
        match assoc_find(layers, slice.layer_name.as_str()) {
            None => {},
            Some(k) => {
                let lp = &layers[k].1;
                let g = join_first(&parts, idx + 1);
                let gp = join(lp.as_str(), g.as_str());
                let par = match parent(gp.as_str()) {
                    Some(q) => q,
                    None => lp.clone(),
                };
                let kids = project.child_directories(par.as_str());
                if contains_text(&kids, gp.as_str()) {
                    let message = cat5(
                        "Slice group \"",
                        g.as_str(),
                        "\" could be confused with a segment \"",
                        matching.as_str(),
                        "\" from Shared",
                    );
                    r.push(Diagnostic::new(AMBIGUOUS_SLICE_NAMES, message.as_str(), gp.as_str()));
                }
            },
        }
    }
    assert(r.deep_view() =~= ambiguous_one(project.deep_view(), layers.deep_view(), names, slice.deep_view()));
    r
}

pub fn ambiguous_slice_names(project: &Project) -> (r: Vec<Diagnostic>)
    requires
        project.wf(),
    ensures
        r.deep_view() == spec_ambiguous_slice_names(project.deep_view()),
{
    let layers = project.layers();
    let shared = match assoc_find(&layers, "shared") {
        None => {
            let r: Vec<Diagnostic> = Vec::new();
            assert(r.deep_view() =~= Seq::<DiagnosticView>::empty());
            return r;
        },
        Some(k) => layers[k].1.clone(),
    };
    let shared_names = keys(&project.segments(shared.as_str()));
    let slices = project.all_slices();
    let ghost sv = slices.deep_view();
    let ghost pv = project.deep_view();
    let mut r: Vec<Diagnostic> = Vec::new();
    let mut i: usize = 0;
    assert(r.deep_view() =~= ambiguous_fold(pv, layers.deep_view(), shared_names.deep_view(), sv.take(0)));
    while i < slices.len()
        invariant
            project.wf(),
            pv == project.deep_view(),
            i <= slices@.len(),
            sv == slices.deep_view(),
            r.deep_view() == ambiguous_fold(pv, layers.deep_view(), shared_names.deep_view(), sv.take(i as int)),
        decreases slices.len() - i,
    {
        assert(sv.take(i + 1).drop_last() =~= sv.take(i as int));
        assert(sv.take(i + 1).last() == slices@[i as int].deep_view());
        let found = ambiguous_one_exec(project, &layers, &shared_names, &slices[i]);
        let ghost prev = r.deep_view();
        let mut k: usize = 0;
        while k < found.len()
            invariant
                k <= found@.len(),
                r.deep_view() == prev + found.deep_view().take(k as int),
            decreases found.len() - k,
        {
            let ghost before = r.deep_view();
            let d = found[k].duplicate();
            r.push(d);
            assert(r.deep_view() =~= before.push(d.deep_view()));
            assert(found.deep_view().take(k + 1) =~= found.deep_view().take(k as int).push(found@[k as int].deep_view()));
            k = k + 1;
        }
        assert(found.deep_view().take(found@.len() as int) =~= found.deep_view());
        i = i + 1;
    }
    assert(sv.take(slices@.len() as int) =~= sv);
    r
}

/// The regular expression that splits a slice name into words.
pub const WORD_PATTERN: &'static str = "(?:[A-Z]+|[a-z]+)[a-z]*";

pub open spec fn dedup(s: Seq<Seq<char>>) -> Seq<Seq<char>>
    decreases s.len(),
{
    if s.len() == 0 {
        Seq::empty()
    } else if dedup(s.drop_last()).contains(s.last()) {
        dedup(s.drop_last())
    } else {
        dedup(s.drop_last()).push(s.last())
    }
}

/// The distinct lowercase words of a slice name.
pub open spec fn word_set(name: Seq<char>) -> Seq<Seq<char>> {
    match regex_matches(WORD_PATTERN@, name) {
        Some(ws) => dedup(ws.map_values(|w: Seq<char>| lowercase(w))),
        None => Seq::empty(),
    }
}

pub open spec fn union_words(acc: Seq<Seq<char>>, ws: Seq<Seq<char>>) -> Seq<Seq<char>>
    decreases ws.len(),
{
    if ws.len() == 0 {
        acc
    } else {
        set_put(union_words(acc, ws.drop_last()), ws.last(), false)
    }
}

/// Every word of every slice name, sorted and without repeats.
pub open spec fn union_sets(sets: Seq<Seq<Seq<char>>>) -> Seq<Seq<char>>
    decreases sets.len(),
{
    if sets.len() == 0 {
        Seq::empty()
    } else {
        union_words(union_sets(sets.drop_last()), sets.last())
    }
}

pub open spec fn in_every(sets: Seq<Seq<Seq<char>>>, w: Seq<char>) -> bool {
    forall|i: int| 0 <= i < sets.len() ==> #[trigger] sets[i].contains(w)
}

pub open spec fn msg_repetitive(word: Seq<char>) -> Seq<char> {
    "Repetitive word \""@ + word + "\" in slice names."@
}

pub open spec fn repeated_words(words: Seq<Seq<char>>, sets: Seq<Seq<Seq<char>>>, location: Seq<char>) -> Seq<DiagnosticView>
    decreases words.len(),
{
    if words.len() == 0 {
        Seq::empty()
    } else {
        let acc = repeated_words(words.drop_last(), sets, location);
        if sets.len() > 2 && in_every(sets, words.last()) {
            acc.push(new_diagnostic(REPETITIVE_NAMING@, msg_repetitive(words.last()), location))
        } else {
            acc
        }
    }
}

/// The words shared by every slice of a group of more than two, in order.
/// (A word counted once per name reaches the number of names exactly when
/// every name has it.)
pub open spec fn repetitive_group(layer_path: Seq<char>, g: Seq<char>, names: Seq<Seq<char>>) -> Seq<DiagnosticView> {
    let sets = names.map_values(|n: Seq<char>| word_set(n));
    repeated_words(union_sets(sets), sets, spec_join(layer_path, g))
}

pub open spec fn repetitive_groups(layer_path: Seq<char>, groups: Seq<(Seq<char>, Seq<Seq<char>>)>) -> Seq<DiagnosticView>
    decreases groups.len(),
{
    if groups.len() == 0 {
        Seq::empty()
    } else {
        let (g, names) = groups.last();
        repetitive_groups(layer_path, groups.drop_last()) + repetitive_group(layer_path, g, names)
    }
}

pub open spec fn repetitive_fold(p: ProjectView, ls: Seq<(Seq<char>, Seq<char>)>) -> Seq<DiagnosticView>
    decreases ls.len(),
{
    if ls.len() == 0 {
        Seq::empty()
    } else {
        let acc = repetitive_fold(p, ls.drop_last());
        let (name, path) = ls.last();
        if spec_is_sliced(name) {
            acc + repetitive_groups(path, spec_group_slices(keys_of(spec_slices(p, path))))
        } else {
            acc
        }
    }
}

/// `fsd/repetitive-naming`: a word in the name of every slice of a group of
/// more than two slices.
pub open spec fn spec_repetitive_naming(p: ProjectView) -> Seq<DiagnosticView> {
    repetitive_fold(p, spec_layers(p))
}

fn word_set_exec(name: &String) -> (r: Vec<String>)
    ensures
        r.deep_view() == word_set(name@),
{
    let mut r: Vec<String> = Vec::new();
    match regex_find_all(WORD_PATTERN, name.as_str()) {
        None => {
            assert(r.deep_view() =~= Seq::<Seq<char>>::empty());
        },
        Some(ws) => {
            let ghost lw = ws.deep_view().map_values(|w: Seq<char>| lowercase(w));
            let mut i: usize = 0;
            assert(r.deep_view() =~= dedup(lw.take(0)));
            while i < ws.len()
                invariant
                    i <= ws@.len(),
                    lw == ws.deep_view().map_values(|w: Seq<char>| lowercase(w)),
                    r.deep_view() == dedup(lw.take(i as int)),
                decreases ws.len() - i,
            {
                assert(lw.take(i + 1).drop_last() =~= lw.take(i as int));
                assert(lw.take(i + 1).last() == lowercase(ws@[i as int]@));
                let w = to_lowercase(ws[i].as_str());
                if !contains_text(&r, w.as_str()) {
                    let ghost prev = r.deep_view();
                    r.push(w);
                    assert(r.deep_view() =~= prev.push(w@));
                }
                i = i + 1;
            }
            assert(lw.take(ws@.len() as int) =~= lw);
        },
    }
    r
}

fn repetitive_group_exec(layer_path: &String, g: &String, names: &Vec<String>, r: &mut Vec<Diagnostic>)
    ensures
        final(r).deep_view() == old(r).deep_view() + repetitive_group(layer_path@, g@, names.deep_view()),
{
    let ghost nv = names.deep_view();
    let ghost sets_v = nv.map_values(|n: Seq<char>| word_set(n));
    let mut sets: Vec<Vec<String>> = Vec::new();
    let mut i: usize = 0;
    while i < names.len()
        invariant
            i <= names@.len(),
            nv == names.deep_view(),
            sets_v == nv.map_values(|n: Seq<char>| word_set(n)),
            sets@.len() == i,
            forall|j: int| 0 <= j < i ==> #[trigger] sets@[j].deep_view() == sets_v[j],
        decreases names.len() - i,
    {
        sets.push(word_set_exec(&names[i]));
        i = i + 1;
    }
    assert(sets.deep_view() =~= sets_v);
    let mut words: Vec<String> = Vec::new();
    let mut k: usize = 0;
    assert(words.deep_view() =~= union_sets(sets_v.take(0)));
    while k < sets.len()
        invariant
            k <= sets@.len(),
            sets.deep_view() == sets_v,
            words.deep_view() == union_sets(sets_v.take(k as int)),
        decreases sets.len() - k,
    {
        assert(sets_v.take(k + 1).drop_last() =~= sets_v.take(k as int));
        assert(sets_v.take(k + 1).last() == sets@[k as int].deep_view());
        let set = &sets[k];
        let ghost base = words.deep_view();
        let mut m: usize = 0;
        assert(union_words(base, set.deep_view().take(0)) == base);
        while m < set.len()
            invariant
                m <= set@.len(),
                words.deep_view() == union_words(base, set.deep_view().take(m as int)),
            decreases set.len() - m,
        {
            assert(set.deep_view().take(m + 1).drop_last() =~= set.deep_view().take(m as int));
            assert(set.deep_view().take(m + 1).last() == set@[m as int]@);
            set_insert(&mut words, set[m].clone(), false);
            m = m + 1;
        }
        assert(set.deep_view().take(set@.len() as int) =~= set.deep_view());
        k = k + 1;
    }
    assert(sets_v.take(sets@.len() as int) =~= sets_v);
    let location = join(layer_path.as_str(), g.as_str());
    let ghost wv = words.deep_view();
    let ghost before = old(r).deep_view();
    let mut w: usize = 0;
    assert(repeated_words(wv.take(0), sets_v, location@) =~= Seq::<DiagnosticView>::empty());
    while w < words.len()
        invariant
            w <= words@.len(),
            wv == words.deep_view(),
            sets.deep_view() == sets_v,
            before == old(r).deep_view(),
            r.deep_view() == before + repeated_words(wv.take(w as int), sets_v, location@),
        decreases words.len() - w,
    {
        assert(wv.take(w + 1).drop_last() =~= wv.take(w as int));
        assert(wv.take(w + 1).last() == words@[w as int]@);
        let word = &words[w];
        let mut every = true;
        let mut j: usize = 0;
        while j < sets.len()
            invariant
                j <= sets@.len(),
                sets.deep_view() == sets_v,
                every == (forall|t: int| 0 <= t < j ==> #[trigger] sets_v[t].contains(word@)),
            decreases sets.len() - j,
        {
            assert(sets_v[j as int] == sets@[j as int].deep_view());
            if !contains_text(&sets[j], word.as_str()) {
                every = false;
            }
            j = j + 1;
        }
        if sets.len() > 2 && every {
            let ghost prev = r.deep_view();
            let message = cat3("Repetitive word \"", word.as_str(), "\" in slice names.");
            let d = Diagnostic::new(REPETITIVE_NAMING, message.as_str(), location.as_str());
            r.push(d);
            assert(r.deep_view() =~= prev.push(d.deep_view()));
        }
        w = w + 1;
    }
    assert(wv.take(words@.len() as int) =~= wv);
}

pub fn repetitive_naming(project: &Project) -> (r: Vec<Diagnostic>)
    requires
        project.wf(),
    ensures
        r.deep_view() == spec_repetitive_naming(project.deep_view()),
{
    let layers = project.layers();
    let ghost lv = layers.deep_view();
    let ghost pv = project.deep_view();
    let mut r: Vec<Diagnostic> = Vec::new();
    let mut i: usize = 0;
    assert(r.deep_view() =~= repetitive_fold(pv, lv.take(0)));
    while i < layers.len()
        invariant
            project.wf(),
            pv == project.deep_view(),
            i <= layers@.len(),
            lv == layers.deep_view(),
            r.deep_view() == repetitive_fold(pv, lv.take(i as int)),
        decreases layers.len() - i,
    {
        assert(lv.take(i + 1).drop_last() =~= lv.take(i as int));
        assert(lv.take(i + 1).last() == layers@[i as int].deep_view());
        let name = &layers[i].0;
        let path = &layers[i].1;
        if Project::is_sliced(name.as_str()) {
            let groups = group_slices(&keys(&project.slices(name.as_str(), path.as_str())));
            let ghost gv = groups.deep_view();
            let ghost before = r.deep_view();
            let mut j: usize = 0;
            assert(repetitive_groups(path@, gv.take(0)) =~= Seq::<DiagnosticView>::empty());
            while j < groups.len()
                invariant
                    j <= groups@.len(),
                    gv == groups.deep_view(),
                    r.deep_view() == before + repetitive_groups(path@, gv.take(j as int)),
                decreases groups.len() - j,
            {
                assert(gv.take(j + 1).drop_last() =~= gv.take(j as int));
                assert(gv.take(j + 1).last() == groups@[j as int].deep_view());
                repetitive_group_exec(path, &groups[j].0, &groups[j].1, &mut r);
                j = j + 1;
            }
            assert(gv.take(groups@.len() as int) =~= gv);
        }
        i = i + 1;
    }
    assert(lv.take(layers@.len() as int) =~= lv);
    r
}


/// A possible correction of a layer folder's name: the folder, its name, the
/// layer that the name may stand for, and the edit distance between the two.
pub type TypoCandidate = (Seq<char>, Seq<char>, Seq<char>, usize);

/// The layers within edit distance 3 of `name`, in layer order.
pub open spec fn layer_candidates(dir: Seq<char>, name: Seq<char>, layers: Seq<Seq<char>>) -> Seq<TypoCandidate>
    decreases layers.len(),
{
    if layers.len() == 0 {
        Seq::empty()
    } else {
        let rest = layer_candidates(dir, name, layers.drop_last());
        let d = edit_distance(name, layers.last());
        if d <= 3 {
            rest.push((dir, name, layers.last(), d as usize))
        } else {
            rest
        }
    }
}

/// Every candidate correction of the folders `dirs`, folder by folder.
pub open spec fn typo_candidates(dirs: Seq<Seq<char>>) -> Seq<TypoCandidate>
    decreases dirs.len(),
{
    if dirs.len() == 0 {
        Seq::empty()
    } else {
        let rest = typo_candidates(dirs.drop_last());
        match spec_file_name_of(dirs.last()) {
            Some(n) => rest + layer_candidates(dirs.last(), n, layer_sequence()),
            None => rest,
        }
    }
}

/// The candidates at distance `k`, in their order.
pub open spec fn at_distance(cs: Seq<TypoCandidate>, k: usize) -> Seq<TypoCandidate>
    decreases cs.len(),
{
    if cs.len() == 0 {
        Seq::empty()
    } else {
        let rest = at_distance(cs.drop_last(), k);
        if cs.last().3 == k {
            rest.push(cs.last())
        } else {
            rest
        }
    }
}

/// The candidates at a distance below `k`, nearest first, equal distances
/// kept in their order: a stable sort by distance.
pub open spec fn by_distance(cs: Seq<TypoCandidate>, k: nat) -> Seq<TypoCandidate>
    decreases k,
{
    if k == 0 {
        Seq::empty()
    } else {
        by_distance(cs, (k - 1) as nat) + at_distance(cs, (k - 1) as nat as usize)
    }
}

pub open spec fn msg_typo(input: Seq<char>, suggestion: Seq<char>) -> Seq<char> {
    "Layer \""@ + input + "\" potentially contains a typo. Did you mean \""@ + suggestion + "\"?"@
}

/// The names already reported, the layers already claimed, and the
/// diagnostics so far.
pub type TypoState = (Seq<Seq<char>>, Seq<Seq<char>>, Seq<DiagnosticView>);

/// One candidate, nearest first: an exact layer name claims its layer; any
/// other reports its folder unless the name was reported or the layer claimed.
pub open spec fn typo_step(s: TypoState, c: TypoCandidate) -> TypoState {
    if c.3 == 0 {
        (s.0, s.1.push(c.2), s.2)
    } else if !s.0.contains(c.1) && !s.1.contains(c.2) {
        (s.0.push(c.1), s.1.push(c.2), s.2.push(new_diagnostic(TYPO_IN_LAYER_NAME@, msg_typo(c.1, c.2), c.0)))
    } else {
        s
    }
}

pub open spec fn typo_run(cs: Seq<TypoCandidate>) -> TypoState
    decreases cs.len(),
{
    if cs.len() == 0 {
        (Seq::empty(), Seq::empty(), Seq::empty())
    } else {
        typo_step(typo_run(cs.drop_last()), cs.last())
    }
}

/// `fsd/typo-in-layer-name`: root folders whose names are close to a layer's.
pub open spec fn spec_typo_in_layer_name(p: ProjectView) -> Seq<DiagnosticView> {
    typo_run(by_distance(typo_candidates(spec_child_directories(p, p.root)), 4)).2
}

fn layer_list() -> (r: Vec<&'static str>)
    ensures
        strs_view(r@) == layer_sequence(),
{
    let r = vec!["shared", "entities", "features", "widgets", "pages", "app"];
    assert(strs_view(r@) =~= layer_sequence());
    r
}

fn push_layer_candidates(
    dir: &String,
    name: &String,
    out: &mut Vec<(String, String, String, usize)>,
)
    ensures
        final(out).deep_view() == old(out).deep_view() + layer_candidates(dir@, name@, layer_sequence()),
{
    let layers = layer_list();
    let ghost start = out.deep_view();
    let mut j: usize = 0;
    while j < layers.len()
        invariant
            j <= layers@.len(),
            strs_view(layers@) == layer_sequence(),
            out.deep_view() == start + layer_candidates(dir@, name@, layer_sequence().take(j as int)),
        decreases layers.len() - j,
    {
        assert(layer_sequence().take(j + 1).drop_last() =~= layer_sequence().take(j as int));
        assert(layer_sequence().take(j + 1).last() == layers@[j as int]@);
        let d = levenshtein(name.as_str(), layers[j]);
        if d <= 3 {
            let ghost before = out.deep_view();
            out.push((dir.clone(), name.clone(), layers[j].to_owned(), d));
            assert(out.deep_view() =~= before.push((dir@, name@, layers@[j as int]@, d)));
        }
        j = j + 1;
    }
    assert(layer_sequence().take(6) =~= layer_sequence());
}

pub fn typo_in_layer_name(project: &Project) -> (r: Vec<Diagnostic>)
    requires
        project.wf(),
    ensures
        r.deep_view() == spec_typo_in_layer_name(project.deep_view()),
{
    let dirs = project.child_directories(project.root.as_str());
    let ghost dv = dirs.deep_view();
    let mut cands: Vec<(String, String, String, usize)> = Vec::new();
    let mut i: usize = 0;
    while i < dirs.len()
        invariant
            i <= dirs@.len(),
            dv == dirs.deep_view(),
            cands.deep_view() == typo_candidates(dv.take(i as int)),
        decreases dirs.len() - i,
    {
        assert(dv.take(i + 1).drop_last() =~= dv.take(i as int));
        assert(dv.take(i + 1).last() == dirs@[i as int]@);
        let n = file_name(dirs[i].as_str());
        match n {
            Some(name) => {
                push_layer_candidates(&dirs[i], &name, &mut cands);
            },
            None => {},
        }
        i = i + 1;
    }
    assert(dv.take(dv.len() as int) =~= dv);
    let ghost cv = cands.deep_view();
    let mut processed: Vec<String> = Vec::new();
    let mut claimed: Vec<String> = Vec::new();
    let mut r: Vec<Diagnostic> = Vec::new();
    let ghost mut done: Seq<TypoCandidate> = Seq::empty();
    assert(processed.deep_view() =~= Seq::<Seq<char>>::empty());
    assert(claimed.deep_view() =~= Seq::<Seq<char>>::empty());
    assert(r.deep_view() =~= Seq::<DiagnosticView>::empty());
    let mut k: usize = 0;
    while k < 4
        invariant
            k <= 4,
            cv == cands.deep_view(),
            done == by_distance(cv, k as nat),
            (processed.deep_view(), claimed.deep_view(), r.deep_view()) == typo_run(done),
        decreases 4 - k,
    {
        let mut j: usize = 0;
        assert(cv.take(0) =~= Seq::<TypoCandidate>::empty());
        assert(done =~= by_distance(cv, k as nat) + at_distance(cv.take(0), k));
        while j < cands.len()
            invariant
                j <= cands@.len(),
                k < 4,
                cv == cands.deep_view(),
                done == by_distance(cv, k as nat) + at_distance(cv.take(j as int), k),
                (processed.deep_view(), claimed.deep_view(), r.deep_view()) == typo_run(done),
            decreases cands.len() - j,
        {
            assert(cv.take(j + 1).drop_last() =~= cv.take(j as int));
            let ghost cw = cv[j as int];
            assert(cw == cands@[j as int].deep_view());
            assert(cv.take(j + 1).last() == cw);
            if cands[j].3 == k {
                let ghost st = typo_run(done);
                if cands[j].3 == 0 {
                    claimed.push(cands[j].2.clone());
                    assert(claimed.deep_view() =~= st.1.push(cw.2));
                } else if !contains_text(&processed, cands[j].1.as_str()) && !contains_text(
                    &claimed,
                    cands[j].2.as_str(),
                ) {
                    processed.push(cands[j].1.clone());
                    claimed.push(cands[j].2.clone());
                    let m = cat5(
                        "Layer \"",
                        cands[j].1.as_str(),
                        "\" potentially contains a typo. Did you mean \"",
                        cands[j].2.as_str(),
                        "\"?",
                    );
                    r.push(Diagnostic::new(TYPO_IN_LAYER_NAME, m.as_str(), cands[j].0.as_str()));
                    assert(processed.deep_view() =~= st.0.push(cw.1));
                    assert(claimed.deep_view() =~= st.1.push(cw.2));
                    assert(r.deep_view() =~= st.2.push(
                        new_diagnostic(TYPO_IN_LAYER_NAME@, msg_typo(cw.1, cw.2), cw.0),
                    ));
                }
                proof {
                    assert(done.push(cw).drop_last() =~= done);
                    done = done.push(cw);
                }
                assert(done =~= by_distance(cv, k as nat) + at_distance(cv.take(j + 1), k));
            } else {
                assert(at_distance(cv.take(j + 1), k) == at_distance(cv.take(j as int), k));
            }
            j = j + 1;
        }
        assert(cv.take(cv.len() as int) =~= cv);
        k = k + 1;
    }
    r
}


/// What the structural rule named `rule` reports of `p`; nothing for a name
/// that is not one of them.
pub open spec fn spec_structural_rule(rule: Seq<char>, p: ProjectView, forms: PluralForms) -> Seq<DiagnosticView> {
    if rule == AMBIGUOUS_SLICE_NAMES@ {
        spec_ambiguous_slice_names(p)
    } else if rule == EXCESSIVE_SLICING@ {
        spec_excessive_slicing(p)
    } else if rule == INCONSISTENT_NAMING@ {
        spec_inconsistent_naming(p, forms)
    } else if rule == NO_LAYER_PUBLIC_API@ {
        spec_no_layer_public_api(p)
    } else if rule == NO_RESERVED_FOLDER_NAMES@ {
        spec_no_reserved_folder_names(p)
    } else if rule == NO_SEGMENTLESS_SLICES@ {
        spec_no_segmentless_slices(p)
    } else if rule == NO_SEGMENTS_ON_SLICED_LAYERS@ {
        spec_no_segments_on_sliced_layers(p)
    } else if rule == NO_UI_IN_APP@ {
        spec_no_ui_in_app(p)
    } else if rule == PUBLIC_API@ {
        spec_public_api(p)
    } else if rule == REPETITIVE_NAMING@ {
        spec_repetitive_naming(p)
    } else if rule == SEGMENTS_BY_PURPOSE@ {
        spec_segments_by_purpose(p)
    } else if rule == SHARED_LIB_GROUPING@ {
        spec_shared_lib_grouping(p)
    } else if rule == TYPO_IN_LAYER_NAME@ {
        spec_typo_in_layer_name(p)
    } else if rule == NO_PROCESSES@ {
        spec_no_processes(p)
    } else {
        Seq::empty()
    }
}

/// Runs the structural rule named `rule` on `project`, with the plural and
/// singular forms that `forms` lists.
pub fn run_rule(rule: &str, project: &Project, forms: &Vec<(String, String, String)>) -> (r: Vec<Diagnostic>)
    requires
        project.wf(),
    ensures
        r.deep_view() == spec_structural_rule(rule@, project.deep_view(), forms.deep_view()),
{
    if text_eq(rule, AMBIGUOUS_SLICE_NAMES) {
        ambiguous_slice_names(project)
    } else if text_eq(rule, EXCESSIVE_SLICING) {
        excessive_slicing(project)
    } else if text_eq(rule, INCONSISTENT_NAMING) {
        inconsistent_naming_with(project, forms)
    } else if text_eq(rule, NO_LAYER_PUBLIC_API) {
        no_layer_public_api(project)
    } else if text_eq(rule, NO_RESERVED_FOLDER_NAMES) {
        no_reserved_folder_names(project)
    } else if text_eq(rule, NO_SEGMENTLESS_SLICES) {
        no_segmentless_slices(project)
    } else if text_eq(rule, NO_SEGMENTS_ON_SLICED_LAYERS) {
        no_segments_on_sliced_layers(project)
    } else if text_eq(rule, NO_UI_IN_APP) {
        no_ui_in_app(project)
    } else if text_eq(rule, PUBLIC_API) {
        public_api(project)
    } else if text_eq(rule, REPETITIVE_NAMING) {
        repetitive_naming(project)
    } else if text_eq(rule, SEGMENTS_BY_PURPOSE) {
        segments_by_purpose(project)
    } else if text_eq(rule, SHARED_LIB_GROUPING) {
        shared_lib_grouping(project)
    } else if text_eq(rule, TYPO_IN_LAYER_NAME) {
        typo_in_layer_name(project)
    } else if text_eq(rule, NO_PROCESSES) {
        no_processes(project)
    } else {
        let r: Vec<Diagnostic> = Vec::new();
        assert(r.deep_view() =~= Seq::<DiagnosticView>::empty());
        r
    }
}

proof fn lemma_folders_missing_message(p: ProjectView, name: Seq<char>, dirs: Seq<Seq<char>>)
    ensures
        forall|i: int| 0 <= i < folders_missing(p, name, dirs).len() ==> (#[trigger] folders_missing(p, name, dirs)[i]).message == msg_top_level(name),
    decreases dirs.len(),
{
    if dirs.len() > 0 {
        lemma_folders_missing_message(p, name, dirs.drop_last());
    }
}

/// A top-level folder message of `shared/ui` or `shared/lib` is never the
/// message for a whole segment.
proof fn lemma_top_level_message_differs(name: Seq<char>)
    ensures
        msg_top_level(name) != "This segment is missing a public API."@,
{
    reveal_strlit("This top-level folder in shared/");
    reveal_strlit("This segment is missing a public API.");
    let a = "This top-level folder in shared/"@;
    let m = msg_top_level(name);
    assert(m[5] == a[5]);
    assert(a[5] == 't');
    assert("This segment is missing a public API."@[5] == 's');
}

/// The segments `ui` and `lib` of `shared` are checked folder by folder: a
/// "segment is missing a public API" diagnostic is always at a segment that
/// is neither of them.
pub proof fn lemma_segment_message_not_for_ui_or_lib(p: ProjectView, sg: Seq<(Seq<char>, EntryView)>)
    ensures
        forall|i: int|
            0 <= i < segments_missing(p, sg).len() && (#[trigger] segments_missing(p, sg)[i]).message
                == "This segment is missing a public API."@ ==> exists|k: int|
                0 <= k < sg.len() && (#[trigger] sg[k]).1.path == segments_missing(p, sg)[i].location.path && sg[k].0
                    != seq!['u', 'i'] && sg[k].0 != seq!['l', 'i', 'b'],
    decreases sg.len(),
{
    reveal_strlit("ui");
    reveal_strlit("lib");
    assert("ui"@ =~= seq!['u', 'i']);
    assert("lib"@ =~= seq!['l', 'i', 'b']);
    if sg.len() > 0 {
        let t = sg.drop_last();
        lemma_segment_message_not_for_ui_or_lib(p, t);
        let acc = segments_missing(p, t);
        let r = segments_missing(p, sg);
        let (name, e) = sg.last();
        let n = sg.len() - 1;
        assert(sg[n] == sg.last());
        assert forall|i: int|
            0 <= i < r.len() && (#[trigger] r[i]).message == "This segment is missing a public API."@ implies exists|k: int|
                0 <= k < sg.len() && (#[trigger] sg[k]).1.path == r[i].location.path && sg[k].0 != seq!['u', 'i']
                    && sg[k].0 != seq!['l', 'i', 'b'] by {
            if i < acc.len() {
                assert(r[i] == acc[i]);
                let k = choose|k: int|
                    0 <= k < t.len() && (#[trigger] t[k]).1.path == acc[i].location.path && t[k].0 != seq!['u', 'i']
                        && t[k].0 != seq!['l', 'i', 'b'];
                assert(sg[k] == t[k]);
            } else if spec_entry_indexes(p, e).len() != 0 {
            } else if name != "ui"@ && name != "lib"@ {
                assert(r[i].location.path == e.path);
            } else if e.kind == EntryKind::Folder {
                let fm = folders_missing(p, name, spec_child_directories(p, e.path));
                lemma_folders_missing_message(p, name, spec_child_directories(p, e.path));
                lemma_top_level_message_differs(name);
                assert(r[i] == fm[i - acc.len()]);
            }
        }
    }
}

proof fn lemma_excess_groups_contains(
    layer_name: Seq<char>,
    layer_path: Seq<char>,
    groups: Seq<(Seq<char>, Seq<Seq<char>>)>,
    j: int,
)
    requires
        0 <= j < groups.len(),
        groups[j].0.len() == 0,
        groups[j].1.len() > 20,
    ensures
        excess_groups(layer_name, layer_path, groups).contains(
            new_diagnostic(EXCESSIVE_SLICING@, msg_ungrouped(layer_name, groups[j].1.len()), layer_path),
        ),
    decreases groups.len(),
{
    let d = new_diagnostic(EXCESSIVE_SLICING@, msg_ungrouped(layer_name, groups[j].1.len()), layer_path);
    let t = groups.drop_last();
    let acc = excess_groups(layer_name, layer_path, t);
    if j < groups.len() - 1 {
        assert(t[j] == groups[j]);
        lemma_excess_groups_contains(layer_name, layer_path, t, j);
        let r = excess_groups(layer_name, layer_path, groups);
        let k = choose|k: int| 0 <= k < acc.len() && acc[k] == d;
        if groups.last().1.len() > 20 {
            assert(r[k] == acc[k]);
        } else {
            assert(r == acc);
        }
    } else {
        assert(groups.last() == groups[j]);
        let r = excess_groups(layer_name, layer_path, groups);
        assert(r[acc.len() as int] == d);
    }
}

/// The ungrouped slices of a layer named entities, features, widgets or
/// pages are counted: more than 20 of them give a diagnostic at the layer's
/// folder.
pub proof fn lemma_excessive_counts_layer(p: ProjectView, ls: Seq<(Seq<char>, Seq<char>)>, k: int, j: int)
    requires
        0 <= k < ls.len(),
        ls[k].0 == seq!['e', 'n', 't', 'i', 't', 'i', 'e', 's'] || ls[k].0 == seq!['f', 'e', 'a', 't', 'u', 'r', 'e', 's']
            || ls[k].0 == seq!['w', 'i', 'd', 'g', 'e', 't', 's'] || ls[k].0 == seq!['p', 'a', 'g', 'e', 's'],
        0 <= j < spec_group_slices(keys_of(spec_slices(p, ls[k].1))).len(),
        spec_group_slices(keys_of(spec_slices(p, ls[k].1)))[j].0.len() == 0,
        spec_group_slices(keys_of(spec_slices(p, ls[k].1)))[j].1.len() > 20,
    ensures
        excessive_fold(p, ls).contains(
            new_diagnostic(
                EXCESSIVE_SLICING@,
                msg_ungrouped(ls[k].0, spec_group_slices(keys_of(spec_slices(p, ls[k].1)))[j].1.len()),
                ls[k].1,
            ),
        ),
    decreases ls.len(),
{
    reveal_strlit("entities");
    reveal_strlit("features");
    reveal_strlit("widgets");
    reveal_strlit("pages");
    assert("entities"@ =~= seq!['e', 'n', 't', 'i', 't', 'i', 'e', 's']);
    assert("features"@ =~= seq!['f', 'e', 'a', 't', 'u', 'r', 'e', 's']);
    assert("widgets"@ =~= seq!['w', 'i', 'd', 'g', 'e', 't', 's']);
    assert("pages"@ =~= seq!['p', 'a', 'g', 'e', 's']);
    let groups = spec_group_slices(keys_of(spec_slices(p, ls[k].1)));
    let d = new_diagnostic(EXCESSIVE_SLICING@, msg_ungrouped(ls[k].0, groups[j].1.len()), ls[k].1);
    let t = ls.drop_last();
    let acc = excessive_fold(p, t);
    let r = excessive_fold(p, ls);
    if k < ls.len() - 1 {
        assert(t[k] == ls[k]);
        lemma_excessive_counts_layer(p, t, k, j);
        let m = choose|m: int| 0 <= m < acc.len() && acc[m] == d;
        if is_counted_layer(ls.last().0) {
            assert(r[m] == acc[m]);
        } else {
            assert(r == acc);
        }
    } else {
        assert(ls.last() == ls[k]);
        assert(is_counted_layer(ls[k].0));
        lemma_excess_groups_contains(ls[k].0, ls[k].1, groups, j);
        let e = excess_groups(ls[k].0, ls[k].1, groups);
        let m = choose|m: int| 0 <= m < e.len() && e[m] == d;
        assert(r[acc.len() + m] == e[m]);
    }
}

} // verus!
