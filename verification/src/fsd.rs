//! The Feature-Sliced Design model of a project: layers, slices, segments,
//! public-API index files, and the index from each source file to its place.
use vstd::prelude::*;
use crate::order::{
    lemma_set_put_contains,
    assoc_find, assoc_get, assoc_insert, assoc_put, path_lt, set_insert, set_put, text_eq, text_lt,
};
use crate::path_utils::{
    lemma_parent_shorter,
    forward_slashes, lemma_last_slash, parent, path_file_name, path_file_stem, slashes_forward,
    spec_file_name, spec_file_stem, spec_parent, spec_starts_with, spec_strip_prefix, starts_with,
    strip_prefix, has_prefix, verbatim_unc, verbatim, chars_have_prefix,
};
use crate::text::{chars_of, string_of_range, push_char, push_text};
use crate::rules::structural::{split_on_slash, split_slash};

verus! {

#[derive(Debug, Clone, Copy, PartialEq, Eq, Structural)]
pub enum EntryKind {
    File,
    Folder,
}

/// A file or folder of the project.
#[derive(Debug, Clone, PartialEq, Eq)]
pub struct Entry {
    pub path: String,
    pub kind: EntryKind,
}

pub struct EntryView {
    pub path: Seq<char>,
    pub kind: EntryKind,
}

impl DeepView for Entry {
    type V = EntryView;

    open spec fn deep_view(&self) -> EntryView {
        EntryView { path: self.path@, kind: self.kind }
    }
}

impl Entry {
    pub fn duplicate(&self) -> (r: Entry)
        ensures
            r.deep_view() == self.deep_view(),
    {
        Entry { path: self.path.clone(), kind: self.kind }
    }
}

/// `e` inserted before the first entry whose path is greater; equal paths
/// keep their insertion order (a stable sort by path, one entry at a time).
pub open spec fn sorted_entry_insert(s: Seq<EntryView>, e: EntryView) -> Seq<EntryView>
    decreases s.len(),
{
    if s.len() == 0 {
        seq![e]
    } else if path_lt(e.path, s[0].path) {
        seq![e] + s
    } else {
        seq![s[0]] + sorted_entry_insert(s.drop_first(), e)
    }
}

/// Adds `e` to the bucket of directory `k`, creating the bucket if needed.
pub open spec fn bucket_add(
    b: Seq<(Seq<char>, Seq<EntryView>)>,
    k: Seq<char>,
    e: EntryView,
) -> Seq<(Seq<char>, Seq<EntryView>)>
    decreases b.len(),
{
    if b.len() == 0 {
        seq![(k, seq![e])]
    } else if b[0].0 == k {
        b.update(0, (k, sorted_entry_insert(b[0].1, e)))
    } else {
        seq![b[0]] + bucket_add(b.drop_first(), k, e)
    }
}

/// The directories from `a` up through its ancestors that lie at or below
/// `root`, added to the sorted set `set`; the walk stops at `root` or at the
/// first ancestor outside it.
pub open spec fn add_ancestors(set: Seq<Seq<char>>, a: Seq<char>, root: Seq<char>) -> Seq<Seq<char>>
    decreases a.len(),
{
    if !spec_starts_with(a, root) {
        set
    } else if a == root {
        set_put(set, a, true)
    } else {
        match spec_parent(a) {
            Some(q) => {
                proof {
                    lemma_parent_shorter(a);
                }
                add_ancestors(set_put(set, a, true), q, root)
            },
            None => set_put(set, a, true),
        }
    }
}

/// The directories of a project, in path order: the root and every ancestor
/// of a file that lies at or below the root.
pub open spec fn spec_directories(root: Seq<char>, files: Seq<Seq<char>>) -> Seq<Seq<char>>
    decreases files.len(),
{
    if files.len() == 0 {
        seq![root]
    } else {
        let s = spec_directories(root, files.drop_last());
        match spec_parent(files.last()) {
            Some(p) => add_ancestors(s, p, root),
            None => s,
        }
    }
}

/// The buckets after adding each directory but the root, as a folder entry of its parent.
pub open spec fn add_folders(
    b: Seq<(Seq<char>, Seq<EntryView>)>,
    dirs: Seq<Seq<char>>,
    root: Seq<char>,
) -> Seq<(Seq<char>, Seq<EntryView>)>
    decreases dirs.len(),
{
    if dirs.len() == 0 {
        b
    } else {
        let b1 = add_folders(b, dirs.drop_last(), root);
        let d = dirs.last();
        if d == root {
            b1
        } else {
            match spec_parent(d) {
                Some(p) => bucket_add(b1, p, EntryView { path: d, kind: EntryKind::Folder }),
                None => b1,
            }
        }
    }
}

/// The buckets after adding each file as a file entry of its parent.
pub open spec fn add_files(
    b: Seq<(Seq<char>, Seq<EntryView>)>,
    files: Seq<Seq<char>>,
) -> Seq<(Seq<char>, Seq<EntryView>)>
    decreases files.len(),
{
    if files.len() == 0 {
        b
    } else {
        let b1 = add_files(b, files.drop_last());
        match spec_parent(files.last()) {
            Some(p) => bucket_add(b1, p, EntryView { path: files.last(), kind: EntryKind::File }),
            None => b1,
        }
    }
}

/// For each directory, its children in path order.
pub open spec fn spec_buckets(root: Seq<char>, files: Seq<Seq<char>>) -> Seq<(Seq<char>, Seq<EntryView>)> {
    add_files(add_folders(Seq::empty(), spec_directories(root, files), root), files)
}

/// The model of a project: its root folder and its files.
pub struct ProjectView {
    pub root: Seq<char>,
    pub files: Seq<Seq<char>>,
}

/// The children of directory `d`: its folders and files, in path order.
pub open spec fn spec_children(p: ProjectView, d: Seq<char>) -> Seq<EntryView> {
    match assoc_get(spec_buckets(p.root, p.files), d) {
        Some(es) => es,
        None => Seq::empty(),
    }
}

/// The paths of the folders among `es`, in order.
pub open spec fn folder_paths(es: Seq<EntryView>) -> Seq<Seq<char>>
    decreases es.len(),
{
    if es.len() == 0 {
        Seq::empty()
    } else if es.last().kind == EntryKind::Folder {
        folder_paths(es.drop_last()).push(es.last().path)
    } else {
        folder_paths(es.drop_last())
    }
}

/// The child folders of directory `d`, in path order.
pub open spec fn spec_child_directories(p: ProjectView, d: Seq<char>) -> Seq<Seq<char>> {
    folder_paths(spec_children(p, d))
}

/// The length of the longest of the paths.
pub open spec fn max_path_len(fs: Seq<Seq<char>>) -> nat
    decreases fs.len(),
{
    if fs.len() == 0 {
        0
    } else if fs.last().len() > max_path_len(fs.drop_last()) {
        fs.last().len()
    } else {
        max_path_len(fs.drop_last())
    }
}

/// No folder of a project is longer than this: the longest of its root and
/// its files.
pub open spec fn tree_bound(p: ProjectView) -> int {
    if p.root.len() > max_path_len(p.files) {
        p.root.len() as int
    } else {
        max_path_len(p.files) as int
    }
}

proof fn lemma_add_ancestors_bound(set: Seq<Seq<char>>, a: Seq<char>, root: Seq<char>, bound: int)
    requires
        a.len() <= bound,
        forall|y: Seq<char>| #[trigger] set.contains(y) ==> y.len() <= bound,
    ensures
        forall|y: Seq<char>| #[trigger] add_ancestors(set, a, root).contains(y) ==> y.len() <= bound,
    decreases a.len(),
{
    lemma_set_put_contains(set, a, true);
    if !spec_starts_with(a, root) {
    } else if a == root {
        assert(add_ancestors(set, a, root) == set_put(set, a, true));
    } else {
        match spec_parent(a) {
            Some(q) => {
                lemma_parent_shorter(a);
                lemma_add_ancestors_bound(set_put(set, a, true), q, root, bound);
                assert(add_ancestors(set, a, root) == add_ancestors(set_put(set, a, true), q, root));
            },
            None => {
                assert(add_ancestors(set, a, root) == set_put(set, a, true));
            },
        }
    }
}

proof fn lemma_max_path_len(fs: Seq<Seq<char>>, i: int)
    requires
        0 <= i < fs.len(),
    ensures
        fs[i].len() <= max_path_len(fs),
    decreases fs.len(),
{
    if i < fs.len() - 1 {
        lemma_max_path_len(fs.drop_last(), i);
    }
}

proof fn lemma_directories_bound(root: Seq<char>, files: Seq<Seq<char>>)
    ensures
        forall|y: Seq<char>| #[trigger] spec_directories(root, files).contains(y) ==> y.len() <= tree_bound(
            ProjectView { root: root, files: files },
        ),
    decreases files.len(),
{
    let b = tree_bound(ProjectView { root: root, files: files });
    if files.len() == 0 {
        assert forall|y: Seq<char>| #[trigger] spec_directories(root, files).contains(y) implies y.len() <= b by {
            assert(seq![root][0] == root);
        }
    } else {
        let t = files.drop_last();
        lemma_directories_bound(root, t);
        let s = spec_directories(root, t);
        assert(tree_bound(ProjectView { root: root, files: t }) <= b);
        match spec_parent(files.last()) {
            Some(q) => {
                lemma_parent_shorter(files.last());
                lemma_max_path_len(files, files.len() - 1);
                lemma_add_ancestors_bound(s, q, root, b);
            },
            None => {},
        }
    }
}

proof fn lemma_sorted_entry_insert_contains(s: Seq<EntryView>, e: EntryView)
    ensures
        forall|x: EntryView| #[trigger] sorted_entry_insert(s, e).contains(x) <==> s.contains(x) || x == e,
    decreases s.len(),
{
    if s.len() == 0 {
        assert forall|x: EntryView| #[trigger] sorted_entry_insert(s, e).contains(x) <==> s.contains(x) || x == e by {
            if x == e {
                assert(seq![e][0] == e);
            }
        }
    } else if path_lt(e.path, s[0].path) {
        let t = seq![e] + s;
        assert forall|x: EntryView| #[trigger] sorted_entry_insert(s, e).contains(x) <==> s.contains(x) || x == e by {
            if t.contains(x) {
                let i = choose|i: int| 0 <= i < t.len() && t[i] == x;
                if i > 0 {
                    assert(s[i - 1] == x);
                }
            }
            if s.contains(x) {
                let i = choose|i: int| 0 <= i < s.len() && s[i] == x;
                assert(t[i + 1] == x);
            }
            if x == e {
                assert(t[0] == e);
            }
        }
    } else {
        let r = sorted_entry_insert(s.drop_first(), e);
        lemma_sorted_entry_insert_contains(s.drop_first(), e);
        let t = seq![s[0]] + r;
        assert forall|x: EntryView| #[trigger] sorted_entry_insert(s, e).contains(x) <==> s.contains(x) || x == e by {
            if t.contains(x) {
                let i = choose|i: int| 0 <= i < t.len() && t[i] == x;
                if i > 0 {
                    assert(r[i - 1] == x);
                    assert(r.contains(x));
                    if s.drop_first().contains(x) {
                        let j = choose|j: int| 0 <= j < s.drop_first().len() && s.drop_first()[j] == x;
                        assert(s[j + 1] == x);
                    }
                } else {
                    assert(s[0] == x);
                }
            }
            if s.contains(x) {
                let i = choose|i: int| 0 <= i < s.len() && s[i] == x;
                if i == 0 {
                    assert(t[0] == x);
                } else {
                    assert(s.drop_first()[i - 1] == x);
                    assert(r.contains(x));
                    let j = choose|j: int| 0 <= j < r.len() && r[j] == x;
                    assert(t[j + 1] == x);
                }
            }
            if x == e {
                assert(r.contains(e));
                let j = choose|j: int| 0 <= j < r.len() && r[j] == e;
                assert(t[j + 1] == e);
            }
        }
    }
}

/// Every folder entry of a bucket has the bucket's key as its parent and
/// is no longer than `bound`.
pub open spec fn folders_within(b: Seq<(Seq<char>, Seq<EntryView>)>, bound: int) -> bool {
    forall|i: int, x: EntryView|
        0 <= i < b.len() && #[trigger] b[i].1.contains(x) && x.kind == EntryKind::Folder ==> spec_parent(x.path)
            == Some(b[i].0) && x.path.len() <= bound
}

proof fn lemma_bucket_add_within(b: Seq<(Seq<char>, Seq<EntryView>)>, k: Seq<char>, e: EntryView, bound: int)
    requires
        folders_within(b, bound),
        e.kind == EntryKind::Folder ==> spec_parent(e.path) == Some(k) && e.path.len() <= bound,
    ensures
        folders_within(bucket_add(b, k, e), bound),
    decreases b.len(),
{
    if b.len() == 0 {
        let r = seq![(k, seq![e])];
        assert forall|i: int, x: EntryView|
            0 <= i < r.len() && #[trigger] r[i].1.contains(x) && x.kind == EntryKind::Folder implies spec_parent(x.path)
                == Some(r[i].0) && x.path.len() <= bound by {
            let j = choose|j: int| 0 <= j < r[i].1.len() && r[i].1[j] == x;
            assert(seq![e][j] == e);
        }
    } else if b[0].0 == k {
        lemma_sorted_entry_insert_contains(b[0].1, e);
        let r = b.update(0, (k, sorted_entry_insert(b[0].1, e)));
        assert forall|i: int, x: EntryView|
            0 <= i < r.len() && #[trigger] r[i].1.contains(x) && x.kind == EntryKind::Folder implies spec_parent(x.path)
                == Some(r[i].0) && x.path.len() <= bound by {
            if i == 0 {
                assert(sorted_entry_insert(b[0].1, e).contains(x));
                if x != e {
                    assert(b[0].1.contains(x));
                }
            } else {
                assert(r[i] == b[i]);
            }
        }
    } else {
        let t = b.drop_first();
        assert forall|i: int, x: EntryView|
            0 <= i < t.len() && #[trigger] t[i].1.contains(x) && x.kind == EntryKind::Folder implies spec_parent(x.path)
                == Some(t[i].0) && x.path.len() <= bound by {
            assert(t[i] == b[i + 1]);
        }
        lemma_bucket_add_within(t, k, e, bound);
        let rest = bucket_add(t, k, e);
        let r = seq![b[0]] + rest;
        assert forall|i: int, x: EntryView|
            0 <= i < r.len() && #[trigger] r[i].1.contains(x) && x.kind == EntryKind::Folder implies spec_parent(x.path)
                == Some(r[i].0) && x.path.len() <= bound by {
            if i == 0 {
                assert(r[0] == b[0]);
            } else {
                assert(r[i] == rest[i - 1]);
            }
        }
    }
}

proof fn lemma_add_folders_within(
    b: Seq<(Seq<char>, Seq<EntryView>)>,
    dirs: Seq<Seq<char>>,
    root: Seq<char>,
    bound: int,
)
    requires
        folders_within(b, bound),
        forall|y: Seq<char>| #[trigger] dirs.contains(y) ==> y.len() <= bound,
    ensures
        folders_within(add_folders(b, dirs, root), bound),
    decreases dirs.len(),
{
    if dirs.len() > 0 {
        let t = dirs.drop_last();
        assert forall|y: Seq<char>| #[trigger] t.contains(y) implies y.len() <= bound by {
            let i = choose|i: int| 0 <= i < t.len() && t[i] == y;
            assert(dirs[i] == y);
            assert(dirs.contains(y));
        }
        lemma_add_folders_within(b, t, root, bound);
        let d = dirs.last();
        assert(dirs[dirs.len() - 1] == d);
        assert(dirs.contains(d));
        if d != root {
            match spec_parent(d) {
                Some(q) => {
                    lemma_bucket_add_within(add_folders(b, t, root), q, EntryView { path: d, kind: EntryKind::Folder }, bound);
                },
                None => {},
            }
        }
    }
}

proof fn lemma_add_files_within(b: Seq<(Seq<char>, Seq<EntryView>)>, files: Seq<Seq<char>>, bound: int)
    requires
        folders_within(b, bound),
    ensures
        folders_within(add_files(b, files), bound),
    decreases files.len(),
{
    if files.len() > 0 {
        lemma_add_files_within(b, files.drop_last(), bound);
        match spec_parent(files.last()) {
            Some(q) => {
                lemma_bucket_add_within(add_files(b, files.drop_last()), q, EntryView { path: files.last(), kind: EntryKind::File }, bound);
            },
            None => {},
        }
    }
}

/// The folder tree of a project: every child folder of `d` lies directly
/// below `d`, so it is longer, and no folder is longer than the tree bound.
pub proof fn lemma_child_folders(p: ProjectView, d: Seq<char>)
    ensures
        forall|x: EntryView|
            #[trigger] spec_children(p, d).contains(x) && x.kind == EntryKind::Folder ==> spec_parent(x.path) == Some(d)
                && d.len() < x.path.len() <= tree_bound(p),
{
    let bound = tree_bound(p);
    lemma_directories_bound(p.root, p.files);
    assert(folders_within(Seq::<(Seq<char>, Seq<EntryView>)>::empty(), bound));
    lemma_add_folders_within(Seq::empty(), spec_directories(p.root, p.files), p.root, bound);
    lemma_add_files_within(add_folders(Seq::empty(), spec_directories(p.root, p.files), p.root), p.files, bound);
    let b = spec_buckets(p.root, p.files);
    crate::order::lemma_assoc_get_found(b, d);
    assert forall|x: EntryView|
        #[trigger] spec_children(p, d).contains(x) && x.kind == EntryKind::Folder implies spec_parent(x.path) == Some(d)
            && d.len() < x.path.len() <= bound by {
        match assoc_get(b, d) {
            Some(es) => {
                let i = choose|i: int| 0 <= i < b.len() && #[trigger] b[i] == (d, es);
                assert(b[i].1.contains(x));
                lemma_parent_shorter(x.path);
            },
            None => {},
        }
    }
}

proof fn lemma_folder_paths_contains(es: Seq<EntryView>, c: Seq<char>)
    ensures
        folder_paths(es).contains(c) ==> es.contains(EntryView { path: c, kind: EntryKind::Folder }),
    decreases es.len(),
{
    if es.len() > 0 {
        let t = es.drop_last();
        lemma_folder_paths_contains(t, c);
        if folder_paths(es).contains(c) {
            let r = folder_paths(t);
            if es.last().kind == EntryKind::Folder && es.last().path == c {
                assert(es[es.len() - 1] == EntryView { path: c, kind: EntryKind::Folder });
            } else {
                if es.last().kind == EntryKind::Folder {
                    let i = choose|i: int| 0 <= i < r.push(es.last().path).len() && r.push(es.last().path)[i] == c;
                    assert(i < r.len());
                    assert(r[i] == c);
                }
                assert(r.contains(c));
                let j = choose|j: int| 0 <= j < t.len() && t[j] == EntryView { path: c, kind: EntryKind::Folder };
                assert(es[j] == t[j]);
            }
        }
    }
}

/// Every child folder of `d` lies directly below it and within the tree bound.
pub proof fn lemma_child_directories(p: ProjectView, d: Seq<char>)
    ensures
        forall|c: Seq<char>|
            #[trigger] spec_child_directories(p, d).contains(c) ==> spec_parent(c) == Some(d) && d.len() < c.len()
                <= tree_bound(p),
{
    lemma_child_folders(p, d);
    assert forall|c: Seq<char>| #[trigger] spec_child_directories(p, d).contains(c) implies spec_parent(c) == Some(d)
        && d.len() < c.len() <= tree_bound(p) by {
        lemma_folder_paths_contains(spec_children(p, d), c);
        assert(spec_children(p, d).contains(EntryView { path: c, kind: EntryKind::Folder }));
    }
}

/// The entries of bucket `q`; none when there is no such bucket.
pub open spec fn bucket_of(b: Seq<(Seq<char>, Seq<EntryView>)>, q: Seq<char>) -> Seq<EntryView> {
    match assoc_get(b, q) {
        Some(es) => es,
        None => Seq::empty(),
    }
}

/// Entries in path order: no entry's path comes before an earlier one's.
pub open spec fn entries_sorted(s: Seq<EntryView>) -> bool {
    forall|i: int, j: int| 0 <= i < j < s.len() ==> !path_lt(#[trigger] s[j].path, #[trigger] s[i].path)
}

proof fn lemma_bucket_add_get(b: Seq<(Seq<char>, Seq<EntryView>)>, k: Seq<char>, e: EntryView, q: Seq<char>)
    ensures
        bucket_of(bucket_add(b, k, e), q) == (if q == k {
            sorted_entry_insert(bucket_of(b, k), e)
        } else {
            bucket_of(b, q)
        }),
    decreases b.len(),
{
    if b.len() == 0 {
        let r = seq![(k, seq![e])];
        assert(bucket_add(b, k, e) == r);
        assert(r.drop_first() =~= Seq::<(Seq<char>, Seq<EntryView>)>::empty());
        assert(sorted_entry_insert(Seq::<EntryView>::empty(), e) == seq![e]);
        assert(r[0] == (k, seq![e]));
        assert(bucket_of(b, k) == Seq::<EntryView>::empty());
        if q != k {
            assert(assoc_get(r, q) == assoc_get(r.drop_first(), q));
        }
    } else if b[0].0 == k {
        let r = b.update(0, (k, sorted_entry_insert(b[0].1, e)));
        assert(bucket_add(b, k, e) == r);
        assert(r[0] == (k, sorted_entry_insert(b[0].1, e)));
        assert(r.drop_first() =~= b.drop_first());
        assert(bucket_of(b, k) == b[0].1);
        if q != k {
            assert(assoc_get(r, q) == assoc_get(r.drop_first(), q));
            assert(assoc_get(b, q) == assoc_get(b.drop_first(), q));
        }
    } else {
        let t = b.drop_first();
        lemma_bucket_add_get(t, k, e, q);
        let r = seq![b[0]] + bucket_add(t, k, e);
        assert(bucket_add(b, k, e) == r);
        assert(r[0] == b[0]);
        assert(r.drop_first() =~= bucket_add(t, k, e));
        assert(assoc_get(b, k) == assoc_get(t, k));
        if q != b[0].0 {
            assert(assoc_get(r, q) == assoc_get(r.drop_first(), q));
            assert(assoc_get(b, q) == assoc_get(t, q));
        }
    }
}

proof fn lemma_sorted_entry_insert_sorted(s: Seq<EntryView>, e: EntryView)
    requires
        entries_sorted(s),
    ensures
        entries_sorted(sorted_entry_insert(s, e)),
    decreases s.len(),
{
    if s.len() == 0 {
    } else if path_lt(e.path, s[0].path) {
        let t = seq![e] + s;
        assert forall|i: int, j: int| 0 <= i < j < t.len() implies !path_lt(#[trigger] t[j].path, #[trigger] t[i].path) by {
            if i == 0 {
                assert(t[j] == s[j - 1]);
                crate::order::lemma_lex_asymmetric(e.path, s[0].path, true);
                if j - 1 > 0 {
                    assert(!path_lt(s[j - 1].path, s[0].path));
                    if path_lt(s[j - 1].path, e.path) {
                        crate::order::lemma_lex_transitive(s[j - 1].path, e.path, s[0].path, true);
                    }
                }
            } else {
                assert(t[i] == s[i - 1] && t[j] == s[j - 1]);
            }
        }
    } else {
        let d = s.drop_first();
        lemma_sorted_entry_insert_sorted(d, e);
        lemma_sorted_entry_insert_contains(d, e);
        let r = sorted_entry_insert(d, e);
        let t = seq![s[0]] + r;
        assert forall|i: int, j: int| 0 <= i < j < t.len() implies !path_lt(#[trigger] t[j].path, #[trigger] t[i].path) by {
            if i == 0 {
                assert(t[j] == r[j - 1]);
                assert(r.contains(r[j - 1]));
                if r[j - 1] != e {
                    assert(d.contains(r[j - 1]));
                    let k = choose|k: int| 0 <= k < d.len() && d[k] == r[j - 1];
                    assert(s[k + 1] == d[k]);
                }
            } else {
                assert(t[i] == r[i - 1] && t[j] == r[j - 1]);
            }
        }
    }
}

proof fn lemma_add_files_get(b: Seq<(Seq<char>, Seq<EntryView>)>, files: Seq<Seq<char>>, q: Seq<char>, x: EntryView)
    ensures
        bucket_of(add_files(b, files), q).contains(x) <==> bucket_of(b, q).contains(x) || (x.kind
            == EntryKind::File && files.contains(x.path) && spec_parent(x.path) == Some(q)),
        entries_sorted(bucket_of(b, q)) ==> entries_sorted(bucket_of(add_files(b, files), q)),
    decreases files.len(),
{
    if files.len() > 0 {
        let t = files.drop_last();
        let f = files.last();
        lemma_add_files_get(b, t, q, x);
        let b1 = add_files(b, t);
        assert(files =~= t.push(f));
        assert(files.contains(x.path) <==> t.contains(x.path) || x.path == f) by {
            if files.contains(x.path) {
                let i = choose|i: int| 0 <= i < files.len() && files[i] == x.path;
                if i < t.len() {
                    assert(t[i] == x.path);
                }
            }
            if t.contains(x.path) {
                let i = choose|i: int| 0 <= i < t.len() && t[i] == x.path;
                assert(files[i] == x.path);
            }
            if x.path == f {
                assert(files[files.len() - 1] == f);
            }
        }
        match spec_parent(f) {
            Some(pp) => {
                let ef = EntryView { path: f, kind: EntryKind::File };
                lemma_bucket_add_get(b1, pp, ef, q);
                lemma_sorted_entry_insert_contains(bucket_of(b1, pp), ef);
                if q == pp {
                    if entries_sorted(bucket_of(b, q)) {
                        lemma_sorted_entry_insert_sorted(bucket_of(b1, pp), ef);
                    }
                }
            },
            None => {},
        }
    }
}

proof fn lemma_add_folders_get(
    b: Seq<(Seq<char>, Seq<EntryView>)>,
    dirs: Seq<Seq<char>>,
    root: Seq<char>,
    q: Seq<char>,
    x: EntryView,
)
    ensures
        bucket_of(add_folders(b, dirs, root), q).contains(x) <==> bucket_of(b, q).contains(x) || (x.kind
            == EntryKind::Folder && dirs.contains(x.path) && x.path != root && spec_parent(x.path) == Some(q)),
        entries_sorted(bucket_of(b, q)) ==> entries_sorted(bucket_of(add_folders(b, dirs, root), q)),
    decreases dirs.len(),
{
    if dirs.len() > 0 {
        let t = dirs.drop_last();
        let d = dirs.last();
        lemma_add_folders_get(b, t, root, q, x);
        let b1 = add_folders(b, t, root);
        assert(dirs.contains(x.path) <==> t.contains(x.path) || x.path == d) by {
            if dirs.contains(x.path) {
                let i = choose|i: int| 0 <= i < dirs.len() && dirs[i] == x.path;
                if i < t.len() {
                    assert(t[i] == x.path);
                }
            }
            if t.contains(x.path) {
                let i = choose|i: int| 0 <= i < t.len() && t[i] == x.path;
                assert(dirs[i] == x.path);
            }
            if x.path == d {
                assert(dirs[dirs.len() - 1] == d);
            }
        }
        if d != root {
            match spec_parent(d) {
                Some(pp) => {
                    let ed = EntryView { path: d, kind: EntryKind::Folder };
                    lemma_bucket_add_get(b1, pp, ed, q);
                    lemma_sorted_entry_insert_contains(bucket_of(b1, pp), ed);
                    if q == pp {
                        if entries_sorted(bucket_of(b, q)) {
                            lemma_sorted_entry_insert_sorted(bucket_of(b1, pp), ed);
                        }
                    }
                },
                None => {},
            }
        }
    }
}

/// What a directory's children are: its files (each file whose parent it
/// is) and its folders (each directory of the project but the root whose
/// parent it is), in path order; nothing else.
pub proof fn lemma_children_listing(p: ProjectView, d: Seq<char>)
    ensures
        forall|x: EntryView|
            #[trigger] spec_children(p, d).contains(x) <==> (x.kind == EntryKind::File && p.files.contains(x.path)
                && spec_parent(x.path) == Some(d)) || (x.kind == EntryKind::Folder && spec_directories(
                p.root,
                p.files,
            ).contains(x.path) && x.path != p.root && spec_parent(x.path) == Some(d)),
        entries_sorted(spec_children(p, d)),
{
    let dirs = spec_directories(p.root, p.files);
    let b0 = add_folders(Seq::empty(), dirs, p.root);
    assert(bucket_of(Seq::<(Seq<char>, Seq<EntryView>)>::empty(), d) =~= Seq::<EntryView>::empty());
    assert forall|x: EntryView|
        #[trigger] spec_children(p, d).contains(x) <==> (x.kind == EntryKind::File && p.files.contains(x.path)
            && spec_parent(x.path) == Some(d)) || (x.kind == EntryKind::Folder && dirs.contains(x.path) && x.path
            != p.root && spec_parent(x.path) == Some(d)) by {
        lemma_add_folders_get(Seq::empty(), dirs, p.root, d, x);
        lemma_add_files_get(b0, p.files, d, x);
    }
    let x0 = EntryView { path: p.root, kind: EntryKind::Folder };
    lemma_add_folders_get(Seq::empty(), dirs, p.root, d, x0);
    lemma_add_files_get(b0, p.files, d, x0);
}

/// No entry occurs twice.
pub open spec fn entries_distinct(s: Seq<EntryView>) -> bool {
    forall|i: int, j: int| 0 <= i < j < s.len() ==> #[trigger] s[i] != #[trigger] s[j]
}

/// No path occurs twice.
pub open spec fn paths_distinct(s: Seq<Seq<char>>) -> bool {
    forall|i: int, j: int| 0 <= i < j < s.len() ==> #[trigger] s[i] != #[trigger] s[j]
}

proof fn lemma_sorted_entry_insert_distinct(s: Seq<EntryView>, e: EntryView)
    requires
        entries_distinct(s),
        !s.contains(e),
    ensures
        entries_distinct(sorted_entry_insert(s, e)),
    decreases s.len(),
{
    if s.len() == 0 {
    } else if path_lt(e.path, s[0].path) {
        let t = seq![e] + s;
        assert forall|i: int, j: int| 0 <= i < j < t.len() implies #[trigger] t[i] != #[trigger] t[j] by {
            assert(t[j] == s[j - 1]);
            if i > 0 {
                assert(t[i] == s[i - 1]);
            } else {
                assert(s.contains(s[j - 1]));
            }
        }
    } else {
        let d = s.drop_first();
        assert(!d.contains(e)) by {
            if d.contains(e) {
                let k = choose|k: int| 0 <= k < d.len() && d[k] == e;
                assert(s[k + 1] == e);
            }
        }
        lemma_sorted_entry_insert_distinct(d, e);
        lemma_sorted_entry_insert_contains(d, e);
        let r = sorted_entry_insert(d, e);
        let t = seq![s[0]] + r;
        assert forall|i: int, j: int| 0 <= i < j < t.len() implies #[trigger] t[i] != #[trigger] t[j] by {
            assert(t[j] == r[j - 1]);
            if i > 0 {
                assert(t[i] == r[i - 1]);
            } else {
                assert(r.contains(r[j - 1]));
                if r[j - 1] != e {
                    assert(d.contains(r[j - 1]));
                    let k = choose|k: int| 0 <= k < d.len() && d[k] == r[j - 1];
                    assert(s[k + 1] == d[k]);
                } else {
                    assert(s[0] != e) by {
                        assert(s.contains(s[0]));
                    }
                }
            }
        }
    }
}

/// A set sequence in strictly increasing order.
pub open spec fn strictly_sorted(s: Seq<Seq<char>>, f: bool) -> bool {
    forall|i: int, j: int| 0 <= i < j < s.len() ==> crate::order::lex_lt(#[trigger] s[i], #[trigger] s[j], f)
}

proof fn lemma_set_put_sorted(s: Seq<Seq<char>>, x: Seq<char>, f: bool)
    requires
        strictly_sorted(s, f),
    ensures
        strictly_sorted(set_put(s, x, f), f),
    decreases s.len(),
{
    if s.len() == 0 {
    } else if s[0] == x {
    } else if crate::order::lex_lt(x, s[0], f) {
        let t = seq![x] + s;
        assert forall|i: int, j: int| 0 <= i < j < t.len() implies crate::order::lex_lt(#[trigger] t[i], #[trigger] t[j], f) by {
            assert(t[j] == s[j - 1]);
            if i > 0 {
                assert(t[i] == s[i - 1]);
            } else if j - 1 > 0 {
                crate::order::lemma_lex_transitive(x, s[0], s[j - 1], f);
            }
        }
    } else {
        crate::order::lemma_lex_total(x, s[0], f);
        let d = s.drop_first();
        assert forall|i: int, j: int| 0 <= i < j < d.len() implies crate::order::lex_lt(#[trigger] d[i], #[trigger] d[j], f) by {
            assert(d[i] == s[i + 1] && d[j] == s[j + 1]);
        }
        lemma_set_put_sorted(d, x, f);
        lemma_set_put_contains(d, x, f);
        let r = set_put(d, x, f);
        let t = seq![s[0]] + r;
        assert forall|i: int, j: int| 0 <= i < j < t.len() implies crate::order::lex_lt(#[trigger] t[i], #[trigger] t[j], f) by {
            assert(t[j] == r[j - 1]);
            if i > 0 {
                assert(t[i] == r[i - 1]);
            } else {
                assert(r.contains(r[j - 1]));
                if r[j - 1] != x {
                    let k = choose|k: int| 0 <= k < d.len() && d[k] == r[j - 1];
                    assert(s[k + 1] == d[k]);
                }
            }
        }
    }
}

proof fn lemma_add_ancestors_sorted(set: Seq<Seq<char>>, a: Seq<char>, root: Seq<char>)
    requires
        strictly_sorted(set, true),
    ensures
        strictly_sorted(add_ancestors(set, a, root), true),
    decreases a.len(),
{
    lemma_set_put_sorted(set, a, true);
    if spec_starts_with(a, root) && a != root {
        if let Some(q) = spec_parent(a) {
            lemma_parent_shorter(a);
            lemma_add_ancestors_sorted(set_put(set, a, true), q, root);
        }
    }
}

/// The directories of a project are listed in strictly increasing path
/// order, so none twice.
pub proof fn lemma_directories_sorted(root: Seq<char>, files: Seq<Seq<char>>)
    ensures
        strictly_sorted(spec_directories(root, files), true),
        paths_distinct(spec_directories(root, files)),
    decreases files.len(),
{
    if files.len() > 0 {
        lemma_directories_sorted(root, files.drop_last());
        if let Some(a) = spec_parent(files.last()) {
            lemma_add_ancestors_sorted(spec_directories(root, files.drop_last()), a, root);
        }
    }
    let ds = spec_directories(root, files);
    assert forall|i: int, j: int| 0 <= i < j < ds.len() implies #[trigger] ds[i] != #[trigger] ds[j] by {
        crate::order::lemma_lex_irreflexive(ds[i], true);
    }
}

proof fn lemma_add_folders_distinct(b: Seq<(Seq<char>, Seq<EntryView>)>, dirs: Seq<Seq<char>>, root: Seq<char>, q: Seq<char>)
    requires
        bucket_of(b, q) == Seq::<EntryView>::empty(),
        paths_distinct(dirs),
    ensures
        entries_distinct(bucket_of(add_folders(b, dirs, root), q)),
        forall|x: EntryView| #[trigger] bucket_of(add_folders(b, dirs, root), q).contains(x) ==> x.kind == EntryKind::Folder,
    decreases dirs.len(),
{
    if dirs.len() > 0 {
        let t = dirs.drop_last();
        let d = dirs.last();
        assert forall|i: int, j: int| 0 <= i < j < t.len() implies #[trigger] t[i] != #[trigger] t[j] by {
            assert(t[i] == dirs[i] && t[j] == dirs[j]);
        }
        lemma_add_folders_distinct(b, t, root, q);
        let b1 = add_folders(b, t, root);
        let ed = EntryView { path: d, kind: EntryKind::Folder };
        assert forall|x: EntryView| #[trigger] bucket_of(add_folders(b, dirs, root), q).contains(x) implies x.kind
            == EntryKind::Folder by {
            lemma_add_folders_get(b, dirs, root, q, x);
        }
        if d != root {
            if let Some(pp) = spec_parent(d) {
                lemma_bucket_add_get(b1, pp, ed, q);
                if q == pp {
                    assert(!bucket_of(b1, pp).contains(ed)) by {
                        lemma_add_folders_get(b, t, root, q, ed);
                        if t.contains(d) {
                            let k = choose|k: int| 0 <= k < t.len() && t[k] == d;
                            assert(dirs[k] == t[k]);
                            assert(dirs[dirs.len() - 1] == d);
                        }
                    }
                    lemma_sorted_entry_insert_distinct(bucket_of(b1, pp), ed);
                }
            }
        }
    }
}

proof fn lemma_add_files_distinct(b: Seq<(Seq<char>, Seq<EntryView>)>, files: Seq<Seq<char>>, q: Seq<char>)
    requires
        entries_distinct(bucket_of(b, q)),
        forall|x: EntryView| #[trigger] bucket_of(b, q).contains(x) ==> x.kind == EntryKind::Folder,
        paths_distinct(files),
    ensures
        entries_distinct(bucket_of(add_files(b, files), q)),
    decreases files.len(),
{
    if files.len() > 0 {
        let t = files.drop_last();
        let f = files.last();
        assert forall|i: int, j: int| 0 <= i < j < t.len() implies #[trigger] t[i] != #[trigger] t[j] by {
            assert(t[i] == files[i] && t[j] == files[j]);
        }
        lemma_add_files_distinct(b, t, q);
        let b1 = add_files(b, t);
        let ef = EntryView { path: f, kind: EntryKind::File };
        if let Some(pp) = spec_parent(f) {
            lemma_bucket_add_get(b1, pp, ef, q);
            if q == pp {
                assert(!bucket_of(b1, pp).contains(ef)) by {
                    lemma_add_files_get(b, t, q, ef);
                    if t.contains(f) {
                        let k = choose|k: int| 0 <= k < t.len() && t[k] == f;
                        assert(files[k] == t[k]);
                        assert(files[files.len() - 1] == f);
                    }
                }
                lemma_sorted_entry_insert_distinct(bucket_of(b1, pp), ef);
            }
        }
    }
}

/// When no file is listed twice, no child of a directory is listed twice.
pub proof fn lemma_children_distinct(p: ProjectView, d: Seq<char>)
    requires
        paths_distinct(p.files),
    ensures
        entries_distinct(spec_children(p, d)),
{
    let dirs = spec_directories(p.root, p.files);
    lemma_directories_sorted(p.root, p.files);
    let e = Seq::<(Seq<char>, Seq<EntryView>)>::empty();
    assert(bucket_of(e, d) =~= Seq::<EntryView>::empty());
    lemma_add_folders_distinct(e, dirs, p.root, d);
    lemma_add_files_distinct(add_folders(e, dirs, p.root), p.files, d);
}

/// `y` is the parent of the file `f`, or an ancestor of that parent.
pub open spec fn folder_above(f: Seq<char>, y: Seq<char>) -> bool {
    match spec_parent(f) {
        Some(q) => crate::path_utils::spec_ancestors(q).contains(y),
        None => false,
    }
}

/// Each directory of a project is its root, or lies below the root and is
/// the parent of a file or an ancestor of one's parent.
pub proof fn lemma_directories_below_root(root: Seq<char>, files: Seq<Seq<char>>, y: Seq<char>)
    ensures
        spec_directories(root, files).contains(y) ==> y == root || (spec_starts_with(y, root) && exists|i: int|
            0 <= i < files.len() && #[trigger] folder_above(files[i], y)),
    decreases files.len(),
{
    if files.len() == 0 {
        if seq![root].contains(y) {
            let i = choose|i: int| 0 <= i < 1 && seq![root][i] == y;
            assert(seq![root][i] == root);
        }
    } else {
        let t = files.drop_last();
        lemma_directories_below_root(root, t, y);
        let s = spec_directories(root, t);
        let k = files.len() - 1;
        assert(files[k] == files.last());
        if s.contains(y) && y != root {
            let i = choose|i: int| 0 <= i < t.len() && #[trigger] folder_above(t[i], y);
            assert(files[i] == t[i]);
            assert(folder_above(files[i], y));
        }
        match spec_parent(files.last()) {
            Some(a) => {
                lemma_add_ancestors_contains(s, a, root, y);
                if !s.contains(y) && add_ancestors(s, a, root).contains(y) {
                    assert(folder_above(files[k], y));
                }
            },
            None => {},
        }
    }
}

/// A root as the project keeps it: a path of more than one character that
/// does not end with a separator, or the file-system root `/` itself.
pub open spec fn plain_root(root: Seq<char>) -> bool {
    root == seq!['/'] || (root.len() > 0 && root.last() != '/')
}

/// A path below a plain root stays below it when one level is added.
proof fn lemma_child_below_root(a: Seq<char>, q: Seq<char>, root: Seq<char>)
    requires
        plain_root(root),
        spec_parent(a) == Some(q),
        spec_starts_with(q, root),
    ensures
        spec_starts_with(a, root),
{
    lemma_last_slash(a);
    let k = crate::path_utils::last_slash(a);
    if root == seq!['/'] {
        assert(crate::path_utils::trim_trailing_slashes(seq!['/']).len() == 0) by {
            let e = Seq::<char>::empty();
            assert(seq!['/'].drop_last() =~= e);
            assert(seq!['/'].last() == '/');
            assert(crate::path_utils::trim_trailing_slashes(e) == e);
        }
        if k < 0 {
            assert(q.len() == 0);
        } else if k == 0 {
            assert(a[0] == '/');
        } else {
            assert(q == a.take(k));
            assert(q[0] == a[0]);
        }
    } else {
        let b = crate::path_utils::trim_trailing_slashes(root);
        assert(b == root);
        if k < 0 {
            assert(q.len() == 0);
        } else if k == 0 {
            assert(q == seq!['/']);
            if q == b {
            } else {
                assert(q.take(b.len() as int) == b);
            }
        } else {
            assert(q == a.take(k));
            assert(a[k] == '/');
            if q == b {
                assert(a.take(b.len() as int) =~= b);
            } else {
                assert(a.take(b.len() as int) =~= q.take(b.len() as int));
                assert(a[b.len() as int] == q[b.len() as int]);
            }
        }
    }
}

/// An ancestor of `a` that lies below a plain root has `a` below the root too.
proof fn lemma_ancestor_below_root(a: Seq<char>, y: Seq<char>, root: Seq<char>)
    requires
        plain_root(root),
        crate::path_utils::spec_ancestors(a).contains(y),
        spec_starts_with(y, root),
    ensures
        spec_starts_with(a, root),
    decreases a.len(),
{
    let anc = crate::path_utils::spec_ancestors(a);
    let i = choose|i: int| 0 <= i < anc.len() && anc[i] == y;
    match spec_parent(a) {
        Some(q) => {
            lemma_parent_shorter(a);
            let rest = crate::path_utils::spec_ancestors(q);
            assert(anc == seq![a] + rest);
            if i > 0 {
                assert(rest[i - 1] == y);
                lemma_ancestor_below_root(q, y, root);
                lemma_child_below_root(a, q, root);
            } else {
                assert(anc[0] == a);
            }
        },
        None => {
            assert(anc == seq![a]);
        },
    }
}

proof fn lemma_add_ancestors_keeps(set: Seq<Seq<char>>, a: Seq<char>, root: Seq<char>, z: Seq<char>)
    ensures
        set.contains(z) ==> add_ancestors(set, a, root).contains(z),
    decreases a.len(),
{
    lemma_set_put_contains(set, a, true);
    if spec_starts_with(a, root) && a != root {
        if let Some(q) = spec_parent(a) {
            lemma_parent_shorter(a);
            lemma_add_ancestors_keeps(set_put(set, a, true), q, root, z);
        }
    }
}

proof fn lemma_add_ancestors_complete(set: Seq<Seq<char>>, a: Seq<char>, root: Seq<char>, y: Seq<char>)
    requires
        plain_root(root),
        crate::path_utils::spec_ancestors(a).contains(y),
        spec_starts_with(y, root),
    ensures
        add_ancestors(set, a, root).contains(y),
    decreases a.len(),
{
    lemma_ancestor_below_root(a, y, root);
    lemma_set_put_contains(set, a, true);
    let anc = crate::path_utils::spec_ancestors(a);
    let i = choose|i: int| 0 <= i < anc.len() && anc[i] == y;
    if a == root {
        lemma_ancestors_no_longer(a, y);
        assert(y == a);
    } else {
        match spec_parent(a) {
            Some(q) => {
                lemma_parent_shorter(a);
                let rest = crate::path_utils::spec_ancestors(q);
                assert(anc == seq![a] + rest);
                if i > 0 {
                    assert(rest[i - 1] == y);
                    lemma_add_ancestors_complete(set_put(set, a, true), q, root, y);
                } else {
                    assert(y == a);
                    lemma_add_ancestors_keeps(set_put(set, a, true), q, root, y);
                }
            },
            None => {
                assert(anc == seq![a]);
            },
        }
    }
}

proof fn lemma_directories_keep(root: Seq<char>, files: Seq<Seq<char>>, z: Seq<char>)
    ensures
        spec_directories(root, files.drop_last()).contains(z) && files.len() > 0 ==> spec_directories(root, files).contains(z),
{
    if files.len() > 0 {
        if let Some(a) = spec_parent(files.last()) {
            lemma_add_ancestors_keeps(spec_directories(root, files.drop_last()), a, root, z);
        }
    }
}

/// Under a plain root, the directories of a project are exactly its root
/// and each folder below it that is the parent of a file or an ancestor of
/// one's parent.
pub proof fn lemma_directories_exact(root: Seq<char>, files: Seq<Seq<char>>, y: Seq<char>)
    requires
        plain_root(root),
    ensures
        spec_directories(root, files).contains(y) <==> y == root || (spec_starts_with(y, root) && exists|i: int|
            0 <= i < files.len() && #[trigger] folder_above(files[i], y)),
    decreases files.len(),
{
    lemma_directories_below_root(root, files, y);
    if files.len() == 0 {
        if y == root {
            assert(seq![root][0] == root);
        }
    } else {
        let t = files.drop_last();
        let k = files.len() - 1;
        lemma_directories_exact(root, t, y);
        lemma_directories_keep(root, files, y);
        if y == root || (spec_starts_with(y, root) && exists|i: int| 0 <= i < files.len() && #[trigger] folder_above(files[i], y)) {
            if y != root {
                let i = choose|i: int| 0 <= i < files.len() && #[trigger] folder_above(files[i], y);
                if i < k {
                    assert(t[i] == files[i]);
                    assert(folder_above(t[i], y));
                } else {
                    assert(files[i] == files.last());
                    if let Some(a) = spec_parent(files.last()) {
                        lemma_add_ancestors_complete(spec_directories(root, t), a, root, y);
                    }
                }
            }
        }
    }
}

/// The children listing of a project with a plain root and no file listed
/// twice: for each directory `d`, in path order and each once, exactly the
/// files whose parent is `d` and the folders whose parent is `d` that lie
/// strictly below the root and are the parent of a file or an ancestor of
/// one's parent; nothing for any other path.
pub proof fn lemma_children_exact(p: ProjectView, d: Seq<char>)
    requires
        plain_root(p.root),
        paths_distinct(p.files),
    ensures
        entries_sorted(spec_children(p, d)),
        entries_distinct(spec_children(p, d)),
        forall|x: EntryView|
            #[trigger] spec_children(p, d).contains(x) <==> spec_parent(x.path) == Some(d) && ((x.kind
                == EntryKind::File && p.files.contains(x.path)) || (x.kind == EntryKind::Folder && x.path != p.root
                && spec_starts_with(x.path, p.root) && exists|i: int|
                0 <= i < p.files.len() && #[trigger] folder_above(p.files[i], x.path))),
{
    lemma_children_listing(p, d);
    lemma_children_distinct(p, d);
    assert forall|x: EntryView|
        #[trigger] spec_children(p, d).contains(x) <==> spec_parent(x.path) == Some(d) && ((x.kind
            == EntryKind::File && p.files.contains(x.path)) || (x.kind == EntryKind::Folder && x.path != p.root
            && spec_starts_with(x.path, p.root) && exists|i: int|
            0 <= i < p.files.len() && #[trigger] folder_above(p.files[i], x.path))) by {
        lemma_directories_exact(p.root, p.files, x.path);
    }
}

/// What walking up from `a` adds: `a` and its ancestors, each below `root`.
proof fn lemma_add_ancestors_contains(set: Seq<Seq<char>>, a: Seq<char>, root: Seq<char>, y: Seq<char>)
    ensures
        add_ancestors(set, a, root).contains(y) ==> set.contains(y) || (spec_starts_with(y, root)
            && crate::path_utils::spec_ancestors(a).contains(y)),
    decreases a.len(),
{
    lemma_set_put_contains(set, a, true);
    assert(crate::path_utils::spec_ancestors(a)[0] == a) by {
        match spec_parent(a) {
            Some(q) => {
                assert(crate::path_utils::spec_ancestors(a) == seq![a] + crate::path_utils::spec_ancestors(q));
            },
            None => {},
        }
    }
    if spec_starts_with(a, root) && a != root {
        match spec_parent(a) {
            Some(q) => {
                lemma_parent_shorter(a);
                lemma_add_ancestors_contains(set_put(set, a, true), q, root, y);
                let anc = crate::path_utils::spec_ancestors(a);
                let rest = crate::path_utils::spec_ancestors(q);
                assert(anc == seq![a] + rest);
                if rest.contains(y) {
                    let i = choose|i: int| 0 <= i < rest.len() && rest[i] == y;
                    assert(anc[i + 1] == y);
                }
            },
            None => {},
        }
    }
}

/// A scanned project: the lint root, its files in path order, and for each
/// directory its children (kept as `spec_buckets` describes; see `wf`).
#[derive(Debug)]
pub struct Project {
    pub root: String,
    pub files: Vec<String>,
    pub children: Vec<(String, Vec<Entry>)>,
}

impl DeepView for Project {
    type V = ProjectView;

    open spec fn deep_view(&self) -> ProjectView {
        ProjectView { root: self.root@, files: self.files.deep_view() }
    }
}

/// Inserts `e` into a vector sorted by path (see `sorted_entry_insert`).
fn insert_entry_sorted(v: &mut Vec<Entry>, e: Entry)
    ensures
        final(v).deep_view() == sorted_entry_insert(old(v).deep_view(), e.deep_view()),
{
    let ghost s = old(v).deep_view();
    let mut i: usize = 0;
    while i < v.len() && !text_lt(e.path.as_str(), v[i].path.as_str(), true)
        invariant
            i <= v@.len(),
            v.deep_view() == s,
            forall|j: int| 0 <= j < i ==> !path_lt(e.path@, s[j].path),
        decreases v.len() - i,
    {
        assert(s[i as int].path == v@[i as int].path@);
        i = i + 1;
    }
    proof {
        lemma_sorted_entry_insert_skip(s, e.deep_view(), i as int);
    }
    let ghost ev = e.deep_view();
    if i == v.len() {
        v.push(e);
        assert(s.skip(i as int).len() == 0);
        assert(v.deep_view() =~= s.take(i as int) + seq![ev]);
    } else {
        assert(s.skip(i as int)[0].path == v@[i as int].path@);
        v.insert(i, e);
        assert(v.deep_view() =~= s.take(i as int) + (seq![ev] + s.skip(i as int)));
    }
}

proof fn lemma_sorted_entry_insert_skip(s: Seq<EntryView>, e: EntryView, i: int)
    requires
        0 <= i <= s.len(),
        forall|j: int| 0 <= j < i ==> !path_lt(e.path, s[j].path),
    ensures
        sorted_entry_insert(s, e) == s.take(i) + sorted_entry_insert(s.skip(i), e),
    decreases i,
{
    if i == 0 {
        assert(s.skip(0) =~= s);
    } else {
        lemma_sorted_entry_insert_skip(s.drop_first(), e, i - 1);
        assert(s.drop_first().skip(i - 1) =~= s.skip(i));
        assert(seq![s[0]] + s.drop_first().take(i - 1) =~= s.take(i));
    }
}

proof fn lemma_bucket_add_skip(
    b: Seq<(Seq<char>, Seq<EntryView>)>,
    k: Seq<char>,
    e: EntryView,
    i: int,
)
    requires
        0 <= i <= b.len(),
        forall|j: int| 0 <= j < i ==> b[j].0 != k,
    ensures
        bucket_add(b, k, e) == b.take(i) + bucket_add(b.skip(i), k, e),
    decreases i,
{
    if i == 0 {
        assert(b.skip(0) =~= b);
    } else {
        lemma_bucket_add_skip(b.drop_first(), k, e, i - 1);
        assert(b.drop_first().skip(i - 1) =~= b.skip(i));
        assert(seq![b[0]] + b.drop_first().take(i - 1) =~= b.take(i));
    }
}

/// Adds `e` to the bucket of `k` (see `bucket_add`).
fn bucket_insert(b: &mut Vec<(String, Vec<Entry>)>, k: String, e: Entry)
    ensures
        final(b).deep_view() == bucket_add(old(b).deep_view(), k@, e.deep_view()),
{
    let ghost s = old(b).deep_view();
    let ghost ev = e.deep_view();
    let mut i: usize = 0;
    while i < b.len() && !(b[i].0 == k)
        invariant
            i <= b@.len(),
            b.deep_view() == s,
            forall|j: int| 0 <= j < i ==> s[j].0 != k@,
        decreases b.len() - i,
    {
        assert(s[i as int].0 == b@[i as int].0@);
        i = i + 1;
    }
    proof {
        lemma_bucket_add_skip(s, k@, ev, i as int);
    }
    if i == b.len() {
        let mut v: Vec<Entry> = Vec::new();
        v.push(e);
        assert(v.deep_view() =~= seq![ev]);
        b.push((k, v));
        assert(s.skip(i as int).len() == 0);
        assert(b.deep_view() =~= s.take(i as int) + seq![(k@, seq![ev])]);
    } else {
        assert(s.skip(i as int)[0].0 == k@);
        let (key, mut v) = b.remove(i);
        insert_entry_sorted(&mut v, e);
        b.insert(i, (key, v));
        assert(b.deep_view() =~= s.take(i as int) + s.skip(i as int).update(
            0,
            (k@, sorted_entry_insert(s[i as int].1, ev)),
        ));
    }
}

/// Adds `a` and its ancestors at or below `root` to `dirs` (see `add_ancestors`).
fn insert_ancestors(dirs: &mut Vec<String>, a: String, root: &String)
    ensures
        final(dirs).deep_view() == add_ancestors(old(dirs).deep_view(), a@, root@),
{
    let ghost target = add_ancestors(old(dirs).deep_view(), a@, root@);
    let mut cur = a;
    loop
        invariant
            target == add_ancestors(old(dirs).deep_view(), a@, root@),
            add_ancestors(dirs.deep_view(), cur@, root@) == target,
        decreases cur@.len(),
    {
        if !starts_with(cur.as_str(), root.as_str()) {
            assert(add_ancestors(dirs.deep_view(), cur@, root@) == dirs.deep_view());
            assert(dirs.deep_view() == target);
            return;
        }
        if cur == *root {
            let ghost before = dirs.deep_view();
            assert(add_ancestors(before, cur@, root@) == set_put(before, cur@, true));
            set_insert(dirs, cur, true);
            assert(dirs.deep_view() == target);
            return;
        }
        proof {
            lemma_parent_shorter(cur@);
        }
        match parent(cur.as_str()) {
            Some(q) => {
                set_insert(dirs, cur, true);
                cur = q;
            },
            None => {
                set_insert(dirs, cur, true);
                return;
            },
        }
    }
}

impl Project {
    /// The well-formedness of a project: the stored children are those of its files.
    pub open spec fn wf(&self) -> bool {
        self.children.deep_view() == spec_buckets(self.root@, self.files.deep_view())
    }

    /// A project holding `files` below `root`.
    pub fn from_files(root: String, files: Vec<String>) -> (r: Project)
        ensures
            r.wf(),
            r.root@ == root@,
            r.files.deep_view() == files.deep_view(),
    {
        let ghost fs = files.deep_view();
        let mut dirs: Vec<String> = Vec::new();
        dirs.push(root.clone());
        assert(dirs.deep_view() =~= seq![root@]);
        let mut i: usize = 0;
        while i < files.len()
            invariant
                i <= files@.len(),
                fs == files.deep_view(),
                dirs.deep_view() == spec_directories(root@, fs.take(i as int)),
            decreases files.len() - i,
        {
            assert(fs.take(i + 1).drop_last() =~= fs.take(i as int));
            assert(fs.take(i + 1).last() == files@[i as int]@);
            match parent(files[i].as_str()) {
                Some(p) => insert_ancestors(&mut dirs, p, &root),
                None => {},
            }
            i = i + 1;
        }
        assert(fs.take(files@.len() as int) =~= fs);
        let ghost ds = dirs.deep_view();
        let mut buckets: Vec<(String, Vec<Entry>)> = Vec::new();
        assert(buckets.deep_view() =~= Seq::<(Seq<char>, Seq<EntryView>)>::empty());
        let mut j: usize = 0;
        while j < dirs.len()
            invariant
                j <= dirs@.len(),
                ds == dirs.deep_view(),
                buckets.deep_view() == add_folders(Seq::empty(), ds.take(j as int), root@),
            decreases dirs.len() - j,
        {
            assert(ds.take(j + 1).drop_last() =~= ds.take(j as int));
            assert(ds.take(j + 1).last() == dirs@[j as int]@);
            if !(dirs[j] == root) {
                match parent(dirs[j].as_str()) {
                    Some(p) => {
                        let e = Entry { path: dirs[j].clone(), kind: EntryKind::Folder };
                        bucket_insert(&mut buckets, p, e);
                    },
                    None => {},
                }
            }
            j = j + 1;
        }
        assert(ds.take(dirs@.len() as int) =~= ds);
        let ghost b1 = buckets.deep_view();
        let mut k: usize = 0;
        while k < files.len()
            invariant
                k <= files@.len(),
                fs == files.deep_view(),
                buckets.deep_view() == add_files(b1, fs.take(k as int)),
            decreases files.len() - k,
        {
            assert(fs.take(k + 1).drop_last() =~= fs.take(k as int));
            assert(fs.take(k + 1).last() == files@[k as int]@);
            match parent(files[k].as_str()) {
                Some(p) => {
                    let e = Entry { path: files[k].clone(), kind: EntryKind::File };
                    bucket_insert(&mut buckets, p, e);
                },
                None => {},
            }
            k = k + 1;
        }
        assert(fs.take(files@.len() as int) =~= fs);
        Project { root, files, children: buckets }
    }
}

/// The index of the first `.` in `s`, or -1.
pub open spec fn first_dot(s: Seq<char>) -> int
    decreases s.len(),
{
    if s.len() == 0 {
        -1
    } else if s[0] == '.' {
        0
    } else if first_dot(s.drop_first()) < 0 {
        -1
    } else {
        first_dot(s.drop_first()) + 1
    }
}

/// The part of `s` before its first `.` (all of `s` when there is none).
pub open spec fn before_first_dot(s: Seq<char>) -> Seq<char> {
    if first_dot(s) < 0 {
        s
    } else {
        s.take(first_dot(s))
    }
}

/// `Path::file_name` of a project path (see `spec_file_name`).
pub open spec fn spec_file_name_of(p: Seq<char>) -> Option<Seq<char>> {
    spec_file_name(p)
}

/// An index file: a file whose stem, up to its first dot, is `index`
/// (`index.ts`, `index.d.ts`, `index.server.js`).
pub open spec fn spec_is_index(e: EntryView) -> bool {
    e.kind == EntryKind::File && match spec_file_stem(e.path) {
        Some(stem) => before_first_dot(stem) == "index"@,
        None => false,
    }
}

/// The name of an entry: the stem of a file, the name of a folder.
pub open spec fn spec_entry_name(e: EntryView) -> Option<Seq<char>> {
    match e.kind {
        EntryKind::File => spec_file_stem(e.path),
        EntryKind::Folder => spec_file_name(e.path),
    }
}

pub open spec fn is_ascii_digit(c: char) -> bool {
    '0' <= c <= '9'
}

/// A layer folder name with an ordering prefix: `_` or a digit and `_`.
pub open spec fn spec_has_layer_prefix(n: Seq<char>) -> bool {
    (n.len() >= 1 && n[0] == '_') || (n.len() >= 2 && is_ascii_digit(n[0]) && n[1] == '_')
}

/// A layer folder name without its ordering prefix.
pub open spec fn spec_remove_layer_prefix(n: Seq<char>) -> Seq<char> {
    if n.len() >= 1 && n[0] == '_' {
        n.skip(1)
    } else if n.len() >= 2 && is_ascii_digit(n[0]) && n[1] == '_' {
        n.skip(2)
    } else {
        n
    }
}

/// The names of the layers, from lowest to highest.
pub open spec fn layer_sequence() -> Seq<Seq<char>> {
    seq!["shared"@, "entities"@, "features"@, "widgets"@, "pages"@, "app"@]
}

pub open spec fn spec_is_layer_name(n: Seq<char>) -> bool {
    n == "shared"@ || n == "entities"@ || n == "features"@ || n == "widgets"@ || n == "pages"@
        || n == "app"@
}

/// The layers that are not divided into slices.
pub open spec fn spec_is_sliced(n: Seq<char>) -> bool {
    n != "shared"@ && n != "app"@
}

/// The conventional segment names: `ui`, `api`, `lib`, `model`, `config`.
pub open spec fn spec_is_conventional_segment(n: Seq<char>) -> bool {
    n == "ui"@ || n == "api"@ || n == "lib"@ || n == "model"@ || n == "config"@
}

/// The name of the folder for cross-import public APIs.
pub open spec fn cross_reference_token() -> Seq<char> {
    "@x"@
}

/// One step of building the layers: a root folder whose name, without an
/// ordering prefix, is a layer name, becomes that layer unless the layer is
/// taken; a prefixed folder takes over from an unprefixed one.
pub open spec fn layers_step(m: Seq<(Seq<char>, Seq<char>)>, path: Seq<char>) -> Seq<(Seq<char>, Seq<char>)> {
    match spec_file_name(path) {
        None => m,
        Some(actual) => {
            let canonical = spec_remove_layer_prefix(actual);
            if !spec_is_layer_name(canonical) {
                m
            } else {
                match assoc_get(m, canonical) {
                    None => assoc_put(m, canonical, path, false),
                    Some(existing) => {
                        let existing_name = match spec_file_name(existing) {
                            Some(n) => n,
                            None => Seq::empty(),
                        };
                        if spec_has_layer_prefix(actual) && !spec_has_layer_prefix(existing_name) {
                            assoc_put(m, canonical, path, false)
                        } else {
                            m
                        }
                    },
                }
            }
        },
    }
}

pub open spec fn layers_fold(dirs: Seq<Seq<char>>) -> Seq<(Seq<char>, Seq<char>)>
    decreases dirs.len(),
{
    if dirs.len() == 0 {
        Seq::empty()
    } else {
        layers_step(layers_fold(dirs.drop_last()), dirs.last())
    }
}

/// The layers of a project, by name: for each layer name, the root folder
/// that holds it.
pub open spec fn spec_layers(p: ProjectView) -> Seq<(Seq<char>, Seq<char>)> {
    layers_fold(spec_child_directories(p, p.root))
}

/// Some child of `es` is named like a conventional segment.
pub open spec fn has_segment_child(es: Seq<EntryView>) -> bool {
    exists|i: int|
        0 <= i < es.len() && match #[trigger] spec_entry_name(es[i]) {
            Some(n) => spec_is_conventional_segment(n),
            None => false,
        }
}

/// A folder is a slice when some child is named like a conventional segment.
pub open spec fn spec_is_slice(p: ProjectView, folder: Seq<char>) -> bool {
    has_segment_child(spec_children(p, folder))
}

/// `Path::strip_prefix(base).unwrap_or(path)` shown with `/` separators.
pub open spec fn spec_relative_slash(base: Seq<char>, path: Seq<char>) -> Seq<char> {
    slashes_forward(
        match spec_strip_prefix(path, base) {
            Some(r) => r,
            None => path,
        },
    )
}

/// Collects the slices below `folder`: a slice is recorded under its path
/// relative to the layer and not descended into; another folder is searched.
pub open spec fn collect_slices_one(
    p: ProjectView,
    layer_path: Seq<char>,
    folder: Seq<char>,
    m: Seq<(Seq<char>, Seq<char>)>,
) -> Seq<(Seq<char>, Seq<char>)>
    decreases tree_bound(p) - folder.len(), 1nat, 0int,
{
    if spec_is_slice(p, folder) {
        assoc_put(m, spec_relative_slash(layer_path, folder), folder, false)
    } else {
        collect_slices_in(p, layer_path, folder, spec_child_directories(p, folder).len() as int, m)
    }
}

/// Collects the slices below the first `k` child folders of `parent`, in order.
pub open spec fn collect_slices_in(
    p: ProjectView,
    layer_path: Seq<char>,
    parent: Seq<char>,
    k: int,
    m: Seq<(Seq<char>, Seq<char>)>,
) -> Seq<(Seq<char>, Seq<char>)>
    decreases tree_bound(p) - parent.len(), 0nat, k,
{
    if k <= 0 || k > spec_child_directories(p, parent).len() {
        m
    } else {
        let m1 = collect_slices_in(p, layer_path, parent, k - 1, m);
        let c = spec_child_directories(p, parent)[k - 1];
        proof {
            lemma_child_directories(p, parent);
            assert(spec_child_directories(p, parent).contains(c));
        }
        collect_slices_one(p, layer_path, c, m1)
    }
}

/// The slices of a layer, by name relative to the layer folder.
pub open spec fn spec_slices(p: ProjectView, layer_path: Seq<char>) -> Seq<(Seq<char>, Seq<char>)> {
    collect_slices_in(p, layer_path, layer_path, spec_child_directories(p, layer_path).len() as int, Seq::empty())
}

/// Walking up from `f` reaches `top`, and no folder passed on the way, below
/// `top`, is a slice.
pub open spec fn no_slice_between(p: ProjectView, top: Seq<char>, f: Seq<char>) -> bool
    decreases f.len(),
{
    match spec_parent(f) {
        Some(q) => {
            proof {
                lemma_parent_shorter(f);
            }
            q == top || (!spec_is_slice(p, q) && no_slice_between(p, top, q))
        },
        None => false,
    }
}

/// Every pair of `m` names a slice reached from `top` through no other slice.
pub open spec fn all_outermost(p: ProjectView, top: Seq<char>, m: Seq<(Seq<char>, Seq<char>)>) -> bool {
    forall|x: (Seq<char>, Seq<char>)| #[trigger] m.contains(x) ==> spec_is_slice(p, x.1) && no_slice_between(p, top, x.1)
}

proof fn lemma_collect_one_outermost(p: ProjectView, lp: Seq<char>, folder: Seq<char>, m: Seq<(Seq<char>, Seq<char>)>)
    requires
        no_slice_between(p, lp, folder),
        all_outermost(p, lp, m),
    ensures
        all_outermost(p, lp, collect_slices_one(p, lp, folder, m)),
    decreases tree_bound(p) - folder.len(), 1nat, 0int,
{
    if spec_is_slice(p, folder) {
        crate::order::lemma_assoc_put_pairs(m, spec_relative_slash(lp, folder), folder, false);
    } else {
        lemma_collect_in_outermost(p, lp, folder, spec_child_directories(p, folder).len() as int, m);
    }
}

proof fn lemma_collect_in_outermost(p: ProjectView, lp: Seq<char>, parent: Seq<char>, k: int, m: Seq<(Seq<char>, Seq<char>)>)
    requires
        parent == lp || (!spec_is_slice(p, parent) && no_slice_between(p, lp, parent)),
        all_outermost(p, lp, m),
    ensures
        all_outermost(p, lp, collect_slices_in(p, lp, parent, k, m)),
    decreases tree_bound(p) - parent.len(), 0nat, k,
{
    if k <= 0 || k > spec_child_directories(p, parent).len() {
    } else {
        lemma_collect_in_outermost(p, lp, parent, k - 1, m);
        let m1 = collect_slices_in(p, lp, parent, k - 1, m);
        let c = spec_child_directories(p, parent)[k - 1];
        lemma_child_directories(p, parent);
        assert(spec_child_directories(p, parent).contains(c));
        assert(no_slice_between(p, lp, c));
        lemma_collect_one_outermost(p, lp, c, m1);
    }
}

/// A folder reached from `top` is longer than `top`.
proof fn lemma_no_slice_between_longer(p: ProjectView, top: Seq<char>, f: Seq<char>)
    requires
        no_slice_between(p, top, f),
    ensures
        f.len() > top.len(),
    decreases f.len(),
{
    lemma_parent_shorter(f);
    if let Some(q) = spec_parent(f) {
        if q != top {
            lemma_no_slice_between_longer(p, top, q);
        }
    }
}

/// No ancestor of `x` is longer than `x`.
proof fn lemma_ancestors_no_longer(x: Seq<char>, y: Seq<char>)
    ensures
        crate::path_utils::spec_ancestors(x).contains(y) ==> y.len() <= x.len(),
    decreases x.len(),
{
    let anc = crate::path_utils::spec_ancestors(x);
    if anc.contains(y) {
        match spec_parent(x) {
            Some(q) => {
                lemma_parent_shorter(x);
                let rest = crate::path_utils::spec_ancestors(q);
                assert(anc == seq![x] + rest);
                let i = choose|i: int| 0 <= i < anc.len() && anc[i] == y;
                if i > 0 {
                    assert(rest[i - 1] == y);
                    lemma_ancestors_no_longer(q, y);
                }
            },
            None => {
                assert(anc == seq![x]);
            },
        }
    }
}

/// A slice reached from `top` through no other slice is never strictly
/// above another folder so reached.
proof fn lemma_outermost_not_above(p: ProjectView, top: Seq<char>, f1: Seq<char>, f2: Seq<char>)
    requires
        spec_is_slice(p, f1),
        no_slice_between(p, top, f1),
        no_slice_between(p, top, f2),
        f1 != f2,
    ensures
        !crate::path_utils::spec_ancestors(f2).contains(f1),
    decreases f2.len(),
{
    let anc = crate::path_utils::spec_ancestors(f2);
    if anc.contains(f1) {
        lemma_no_slice_between_longer(p, top, f1);
        match spec_parent(f2) {
            Some(q) => {
                lemma_parent_shorter(f2);
                let rest = crate::path_utils::spec_ancestors(q);
                assert(anc == seq![f2] + rest);
                let i = choose|i: int| 0 <= i < anc.len() && anc[i] == f1;
                assert(i > 0);
                assert(rest[i - 1] == f1);
                if q == top {
                    lemma_ancestors_no_longer(q, f1);
                } else if q != f1 {
                    lemma_outermost_not_above(p, top, f1, q);
                }
            },
            None => {},
        }
    }
}

/// Slices never nest: a slice of a layer is a slice folder reached from the
/// layer folder through no other slice, so no slice lies inside another.
pub proof fn lemma_slices_never_nest(p: ProjectView, layer_path: Seq<char>, i: int, j: int)
    requires
        0 <= i < spec_slices(p, layer_path).len(),
        0 <= j < spec_slices(p, layer_path).len(),
    ensures
        spec_is_slice(p, spec_slices(p, layer_path)[i].1),
        no_slice_between(p, layer_path, spec_slices(p, layer_path)[i].1),
        spec_slices(p, layer_path)[i].1 != spec_slices(p, layer_path)[j].1 ==> !crate::path_utils::spec_ancestors(
            spec_slices(p, layer_path)[j].1,
        ).contains(spec_slices(p, layer_path)[i].1),
{
    let sl = spec_slices(p, layer_path);
    lemma_collect_in_outermost(
        p,
        layer_path,
        layer_path,
        spec_child_directories(p, layer_path).len() as int,
        Seq::empty(),
    );
    assert(sl.contains(sl[i]));
    assert(sl.contains(sl[j]));
    if sl[i].1 != sl[j].1 {
        lemma_outermost_not_above(p, layer_path, sl[i].1, sl[j].1);
    }
}

/// A slice of a sliced layer.
pub struct SliceView {
    pub layer_name: Seq<char>,
    pub name: Seq<char>,
    pub path: Seq<char>,
}

pub open spec fn slices_of_layer(layer_name: Seq<char>, sl: Seq<(Seq<char>, Seq<char>)>) -> Seq<SliceView> {
    sl.map_values(|s: (Seq<char>, Seq<char>)| SliceView { layer_name: layer_name, name: s.0, path: s.1 })
}

pub open spec fn all_slices_fold(p: ProjectView, ls: Seq<(Seq<char>, Seq<char>)>) -> Seq<SliceView>
    decreases ls.len(),
{
    if ls.len() == 0 {
        Seq::empty()
    } else {
        let acc = all_slices_fold(p, ls.drop_last());
        let (name, path) = ls.last();
        if spec_is_sliced(name) {
            acc + slices_of_layer(name, spec_slices(p, path))
        } else {
            acc
        }
    }
}

/// Every slice of every sliced layer, layers in name order, slices in name order.
pub open spec fn spec_all_slices(p: ProjectView) -> Seq<SliceView> {
    all_slices_fold(p, spec_layers(p))
}

pub open spec fn segments_fold(es: Seq<EntryView>) -> Seq<(Seq<char>, EntryView)>
    decreases es.len(),
{
    if es.len() == 0 {
        Seq::empty()
    } else {
        let m = segments_fold(es.drop_last());
        let e = es.last();
        if spec_is_index(e) {
            m
        } else {
            match spec_entry_name(e) {
                Some(n) => assoc_put(m, n, e, false),
                None => m,
            }
        }
    }
}

/// The segments of a slice or unsliced layer, by name: its children other
/// than index files; of two with one name the later in path order wins.
pub open spec fn spec_segments(p: ProjectView, parent: Seq<char>) -> Seq<(Seq<char>, EntryView)> {
    segments_fold(spec_children(p, parent))
}

pub open spec fn index_paths(es: Seq<EntryView>) -> Seq<Seq<char>>
    decreases es.len(),
{
    if es.len() == 0 {
        Seq::empty()
    } else if spec_is_index(es.last()) {
        index_paths(es.drop_last()).push(es.last().path)
    } else {
        index_paths(es.drop_last())
    }
}

/// The index files among the children of `parent`, in path order.
pub open spec fn spec_indexes(p: ProjectView, parent: Seq<char>) -> Seq<Seq<char>> {
    index_paths(spec_children(p, parent))
}

/// A copy of a list of entries.
pub fn duplicate_entries(v: &Vec<Entry>) -> (r: Vec<Entry>)
    ensures
        r.deep_view() == v.deep_view(),
{
    let mut r: Vec<Entry> = Vec::new();
    let mut i: usize = 0;
    while i < v.len()
        invariant
            i <= v@.len(),
            r@.len() == i,
            forall|j: int| 0 <= j < i ==> r@[j].deep_view() == v@[j].deep_view(),
        decreases v.len() - i,
    {
        r.push(v[i].duplicate());
        i = i + 1;
    }
    assert(r.deep_view() =~= v.deep_view());
    r
}

/// `Path::file_name` as text (see `spec_file_name`).
pub fn file_name(path: &str) -> (r: Option<String>)
    ensures
        r.deep_view() == spec_file_name(path@),
{
    path_file_name(path)
}

/// `path` relative to `base` with `/` separators, or all of `path` when it
/// does not lie below `base`.
pub fn relative_slash(base: &str, path: &str) -> (r: String)
    ensures
        r@ == spec_relative_slash(base@, path@),
{
    match strip_prefix(path, base) {
        Some(rest) => forward_slashes(rest.as_str()),
        None => forward_slashes(path),
    }
}

/// The part of `s` before its first `.`.
pub(crate) fn before_first_dot_of(s: &str) -> (r: String)
    ensures
        r@ == before_first_dot(s@),
{
    let cs = chars_of(s);
    let mut i: usize = 0;
    while i < cs.len() && cs[i] != '.'
        invariant
            i <= cs@.len(),
            forall|j: int| 0 <= j < i ==> cs@[j] != '.',
        decreases cs.len() - i,
    {
        i = i + 1;
    }
    proof {
        lemma_first_dot(cs@, i as int);
    }
    let r = crate::text::string_of_range(&cs, 0, i);
    if i == cs.len() {
        assert(r@ =~= cs@);
    } else {
        assert(r@ =~= cs@.take(i as int));
    }
    r
}

proof fn lemma_first_dot(s: Seq<char>, i: int)
    requires
        0 <= i <= s.len(),
        forall|j: int| 0 <= j < i ==> s[j] != '.',
        i < s.len() ==> s[i] == '.',
    ensures
        i == s.len() ==> first_dot(s) == -1,
        i < s.len() ==> first_dot(s) == i,
    decreases i,
{
    if i > 0 {
        assert forall|j: int| 0 <= j < i - 1 implies s.drop_first()[j] != '.' by {
            assert(s[j + 1] != '.');
        }
        lemma_first_dot(s.drop_first(), i - 1);
    } else if s.len() == 0 {
    }
}

/// Whether `entry` is an index file (see `spec_is_index`).
pub fn is_index(entry: &Entry) -> (r: bool)
    ensures
        r == spec_is_index(entry.deep_view()),
{
    if entry.kind != EntryKind::File {
        return false;
    }
    match path_file_stem(entry.path.as_str()) {
        Some(stem) => {
            let part = before_first_dot_of(stem.as_str());
            text_eq(part.as_str(), "index")
        },
        None => false,
    }
}

/// The name of an entry (see `spec_entry_name`).
fn entry_name(entry: &Entry) -> (r: Option<String>)
    ensures
        r.deep_view() == spec_entry_name(entry.deep_view()),
{
    match entry.kind {
        EntryKind::File => path_file_stem(entry.path.as_str()),
        EntryKind::Folder => path_file_name(entry.path.as_str()),
    }
}

fn is_digit(c: char) -> (r: bool)
    ensures
        r == is_ascii_digit(c),
{
    '0' <= c && c <= '9'
}

/// Whether a folder name has a layer ordering prefix (see `spec_has_layer_prefix`).
fn has_layer_prefix(name: &str) -> (r: bool)
    ensures
        r == spec_has_layer_prefix(name@),
{
    let cs = chars_of(name);
    (cs.len() >= 1 && cs[0] == '_') || (cs.len() >= 2 && is_digit(cs[0]) && cs[1] == '_')
}

/// A folder name without its layer ordering prefix (see `spec_remove_layer_prefix`).
fn remove_layer_prefix(name: &str) -> (r: String)
    ensures
        r@ == spec_remove_layer_prefix(name@),
{
    let cs = chars_of(name);
    if cs.len() >= 1 && cs[0] == '_' {
        crate::text::string_of_range(&cs, 1, cs.len())
    } else if cs.len() >= 2 && is_digit(cs[0]) && cs[1] == '_' {
        crate::text::string_of_range(&cs, 2, cs.len())
    } else {
        crate::text::string_of_range(&cs, 0, cs.len())
    }
}

/// Whether `name` is one of the six layer names.
pub fn is_layer_name(name: &str) -> (r: bool)
    ensures
        r == spec_is_layer_name(name@),
{
    text_eq(name, "shared") || text_eq(name, "entities") || text_eq(name, "features") || text_eq(
        name,
        "widgets",
    ) || text_eq(name, "pages") || text_eq(name, "app")
}

/// Whether `name` is one of the conventional segment names.
pub fn is_conventional_segment(name: &str) -> (r: bool)
    ensures
        r == spec_is_conventional_segment(name@),
{
    text_eq(name, "ui") || text_eq(name, "api") || text_eq(name, "lib") || text_eq(name, "model")
        || text_eq(name, "config")
}

/// A slice of a sliced layer.
#[derive(Debug, Clone, PartialEq, Eq)]
pub struct Slice {
    pub layer_name: String,
    pub name: String,
    pub path: String,
}

impl DeepView for Slice {
    type V = SliceView;

    open spec fn deep_view(&self) -> SliceView {
        SliceView { layer_name: self.layer_name@, name: self.name@, path: self.path@ }
    }
}

/// A segment of a slice, or of an unsliced layer.
#[derive(Debug, Clone, PartialEq, Eq)]
pub struct Segment {
    pub layer_name: String,
    pub slice_name: Option<String>,
    pub name: String,
    pub entry: Entry,
}

pub struct SegmentView {
    pub layer_name: Seq<char>,
    pub slice_name: Option<Seq<char>>,
    pub name: Seq<char>,
    pub entry: EntryView,
}

impl DeepView for Segment {
    type V = SegmentView;

    open spec fn deep_view(&self) -> SegmentView {
        SegmentView {
            layer_name: self.layer_name@,
            slice_name: self.slice_name.deep_view(),
            name: self.name@,
            entry: self.entry.deep_view(),
        }
    }
}

pub open spec fn segments_of(
    layer_name: Seq<char>,
    slice_name: Option<Seq<char>>,
    sg: Seq<(Seq<char>, EntryView)>,
) -> Seq<SegmentView> {
    sg.map_values(
        |s: (Seq<char>, EntryView)|
            SegmentView { layer_name: layer_name, slice_name: slice_name, name: s.0, entry: s.1 },
    )
}

pub open spec fn slice_segments_fold(
    p: ProjectView,
    layer_name: Seq<char>,
    sl: Seq<(Seq<char>, Seq<char>)>,
) -> Seq<SegmentView>
    decreases sl.len(),
{
    if sl.len() == 0 {
        Seq::empty()
    } else {
        let (slice_name, slice_path) = sl.last();
        slice_segments_fold(p, layer_name, sl.drop_last()) + segments_of(
            layer_name,
            Some(slice_name),
            spec_segments(p, slice_path),
        )
    }
}

pub open spec fn all_segments_fold(p: ProjectView, ls: Seq<(Seq<char>, Seq<char>)>) -> Seq<SegmentView>
    decreases ls.len(),
{
    if ls.len() == 0 {
        Seq::empty()
    } else {
        let acc = all_segments_fold(p, ls.drop_last());
        let (name, path) = ls.last();
        if spec_is_sliced(name) {
            acc + slice_segments_fold(p, name, spec_slices(p, path))
        } else {
            acc + segments_of(name, None, spec_segments(p, path))
        }
    }
}

/// Every segment: of each slice of a sliced layer, and of each unsliced layer.
pub open spec fn spec_all_segments(p: ProjectView) -> Seq<SegmentView> {
    all_segments_fold(p, spec_layers(p))
}

impl Project {
    /// The children of the folder `path`, in path order.
    pub fn children(&self, path: &str) -> (r: Vec<Entry>)
        requires
            self.wf(),
        ensures
            r.deep_view() == spec_children(self.deep_view(), path@),
    {
        match assoc_find(&self.children, path) {
            Some(i) => duplicate_entries(&self.children[i].1),
            None => {
                let r: Vec<Entry> = Vec::new();
                assert(r.deep_view() =~= Seq::<EntryView>::empty());
                r
            },
        }
    }

    /// The child folders of `path`, in path order.
    pub fn child_directories(&self, path: &str) -> (r: Vec<String>)
        requires
            self.wf(),
        ensures
            r.deep_view() == spec_child_directories(self.deep_view(), path@),
    {
        let es = self.children(path);
        let ghost esv = es.deep_view();
        let mut r: Vec<String> = Vec::new();
        let mut i: usize = 0;
        assert(r.deep_view() =~= folder_paths(esv.take(0)));
        while i < es.len()
            invariant
                i <= es@.len(),
                esv == es.deep_view(),
                r.deep_view() == folder_paths(esv.take(i as int)),
            decreases es.len() - i,
        {
            assert(esv.take(i + 1).drop_last() =~= esv.take(i as int));
            assert(esv.take(i + 1).last() == es@[i as int].deep_view());
            if es[i].kind == EntryKind::Folder {
                r.push(es[i].path.clone());
                assert(r.deep_view() =~= folder_paths(esv.take(i as int)).push(es@[i as int].path@));
            }
            i = i + 1;
        }
        assert(esv.take(es@.len() as int) =~= esv);
        r
    }

    /// The layers, by name (see `spec_layers`).
    pub fn layers(&self) -> (r: Vec<(String, String)>)
        requires
            self.wf(),
        ensures
            r.deep_view() == spec_layers(self.deep_view()),
    {
        let dirs = self.child_directories(self.root.as_str());
        let ghost dv = dirs.deep_view();
        let mut layers: Vec<(String, String)> = Vec::new();
        let mut i: usize = 0;
        assert(layers.deep_view() =~= layers_fold(dv.take(0)));
        while i < dirs.len()
            invariant
                i <= dirs@.len(),
                dv == dirs.deep_view(),
                layers.deep_view() == layers_fold(dv.take(i as int)),
            decreases dirs.len() - i,
        {
            assert(dv.take(i + 1).drop_last() =~= dv.take(i as int));
            assert(dv.take(i + 1).last() == dirs@[i as int]@);
            let path = &dirs[i];
            match file_name(path.as_str()) {
                None => {},
                Some(actual) => {
                    let canonical = remove_layer_prefix(actual.as_str());
                    if is_layer_name(canonical.as_str()) {
                        match assoc_find(&layers, canonical.as_str()) {
                            None => {
                                assoc_insert(&mut layers, canonical, path.clone(), false);
                            },
                            Some(k) => {
                                let existing_name = match file_name(layers[k].1.as_str()) {
                                    Some(n) => n,
                                    None => String::new(),
                                };
                                if has_layer_prefix(actual.as_str()) && !has_layer_prefix(
                                    existing_name.as_str(),
                                ) {
                                    assoc_insert(&mut layers, canonical, path.clone(), false);
                                }
                            },
                        }
                    }
                },
            }
            i = i + 1;
        }
        assert(dv.take(dirs@.len() as int) =~= dv);
        layers
    }

    /// Whether a layer is divided into slices (all but `shared` and `app`).
    pub fn is_sliced(layer_name: &str) -> (r: bool)
        ensures
            r == spec_is_sliced(layer_name@),
    {
        !(text_eq(layer_name, "shared") || text_eq(layer_name, "app"))
    }

    /// Whether `folder` is a slice (see `spec_is_slice`).
    pub fn is_slice(&self, folder: &str) -> (r: bool)
        requires
            self.wf(),
        ensures
            r == spec_is_slice(self.deep_view(), folder@),
    {
        let es = self.children(folder);
        let ghost esv = es.deep_view();
        let mut i: usize = 0;
        while i < es.len()
            invariant
                i <= es@.len(),
                esv == es.deep_view(),
                esv == spec_children(self.deep_view(), folder@),
                forall|j: int|
                    0 <= j < i ==> !(match #[trigger] spec_entry_name(esv[j]) {
                        Some(n) => spec_is_conventional_segment(n),
                        None => false,
                    }),
            decreases es.len() - i,
        {
            assert(esv[i as int] == es@[i as int].deep_view());
            match entry_name(&es[i]) {
                Some(n) => {
                    if is_conventional_segment(n.as_str()) {
                        assert(match spec_entry_name(esv[i as int]) {
                            Some(n) => spec_is_conventional_segment(n),
                            None => false,
                        });
                        return true;
                    }
                },
                None => {},
            }
            i = i + 1;
        }
        false
    }

    /// The slices of a layer, by name (see `spec_slices`).
    pub fn slices(&self, layer_name: &str, layer_path: &str) -> (r: Vec<(String, String)>)
        requires
            self.wf(),
        ensures
            r.deep_view() == spec_slices(self.deep_view(), layer_path@),
    {
        let mut slices: Vec<(String, String)> = Vec::new();
        assert(slices.deep_view() =~= Seq::<(Seq<char>, Seq<char>)>::empty());
        self.collect_slices_in(layer_name, layer_path, layer_path, &mut slices);
        slices
    }

    fn collect_slices_in(
        &self,
        layer_name: &str,
        layer_path: &str,
        parent: &str,
        slices: &mut Vec<(String, String)>,
    )
        requires
            self.wf(),
        ensures
            final(slices).deep_view() == collect_slices_in(
                self.deep_view(),
                layer_path@,
                parent@,
                spec_child_directories(self.deep_view(), parent@).len() as int,
                old(slices).deep_view(),
            ),
        decreases tree_bound(self.deep_view()) - parent@.len(), 0nat,
    {
        let dirs = self.child_directories(parent);
        let ghost dv = dirs.deep_view();
        let ghost start = old(slices).deep_view();
        proof {
            lemma_child_directories(self.deep_view(), parent@);
        }
        let mut i: usize = 0;
        while i < dirs.len()
            invariant
                self.wf(),
                i <= dirs@.len(),
                dv == dirs.deep_view(),
                dv == spec_child_directories(self.deep_view(), parent@),
                forall|c: Seq<char>| #[trigger] dv.contains(c) ==> parent@.len() < c.len() <= tree_bound(self.deep_view()),
                start == old(slices).deep_view(),
                slices.deep_view() == collect_slices_in(self.deep_view(), layer_path@, parent@, i as int, start),
            decreases dirs.len() - i,
        {
            assert(dv[i as int] == dirs@[i as int]@);
            assert(dv.contains(dv[i as int]));
            self.collect_slices(layer_name, layer_path, dirs[i].as_str(), slices);
            i = i + 1;
        }
    }

    fn collect_slices(
        &self,
        layer_name: &str,
        layer_path: &str,
        folder: &str,
        slices: &mut Vec<(String, String)>,
    )
        requires
            self.wf(),
        ensures
            final(slices).deep_view() == collect_slices_one(
                self.deep_view(),
                layer_path@,
                folder@,
                old(slices).deep_view(),
            ),
        decreases tree_bound(self.deep_view()) - folder@.len(), 1nat,
    {
        if self.is_slice(folder) {
            let name = relative_slash(layer_path, folder);
            assoc_insert(slices, name, folder.to_owned(), false);
            return ;
        }
        self.collect_slices_in(layer_name, layer_path, folder, slices);
    }

    /// Every slice of every sliced layer (see `spec_all_slices`).
    pub fn all_slices(&self) -> (r: Vec<Slice>)
        requires
            self.wf(),
        ensures
            r.deep_view() == spec_all_slices(self.deep_view()),
    {
        let layers = self.layers();
        let ghost lv = layers.deep_view();
        let ghost pv = self.deep_view();
        let mut r: Vec<Slice> = Vec::new();
        let mut i: usize = 0;
        assert(r.deep_view() =~= all_slices_fold(pv, lv.take(0)));
        while i < layers.len()
            invariant
                self.wf(),
                pv == self.deep_view(),
                i <= layers@.len(),
                lv == layers.deep_view(),
                r.deep_view() == all_slices_fold(pv, lv.take(i as int)),
            decreases layers.len() - i,
        {
            assert(lv.take(i + 1).drop_last() =~= lv.take(i as int));
            assert(lv.take(i + 1).last() == layers@[i as int].deep_view());
            let layer_name = &layers[i].0;
            let layer_path = &layers[i].1;
            if Self::is_sliced(layer_name.as_str()) {
                let sl = self.slices(layer_name.as_str(), layer_path.as_str());
                let ghost slv = sl.deep_view();
                let ghost before = r.deep_view();
                let mut j: usize = 0;
                while j < sl.len()
                    invariant
                        j <= sl@.len(),
                        slv == sl.deep_view(),
                        r.deep_view() == before + slices_of_layer(layer_name@, slv.take(j as int)),
                    decreases sl.len() - j,
                {
                    let ghost prev = r.deep_view();
                    r.push(
                        Slice {
                            layer_name: layer_name.clone(),
                            name: sl[j].0.clone(),
                            path: sl[j].1.clone(),
                        },
                    );
                    assert(r.deep_view() =~= prev.push(
                        SliceView { layer_name: layer_name@, name: slv[j as int].0, path: slv[j as int].1 },
                    ));
                    assert(slices_of_layer(layer_name@, slv.take(j + 1)) =~= slices_of_layer(
                        layer_name@,
                        slv.take(j as int),
                    ).push(
                        SliceView { layer_name: layer_name@, name: slv[j as int].0, path: slv[j as int].1 },
                    ));
                    j = j + 1;
                }
                assert(slv.take(sl@.len() as int) =~= slv);
            }
            i = i + 1;
        }
        assert(lv.take(layers@.len() as int) =~= lv);
        r
    }

    /// The segments of `parent`, by name (see `spec_segments`).
    pub fn segments(&self, parent: &str) -> (r: Vec<(String, Entry)>)
        requires
            self.wf(),
        ensures
            r.deep_view() == spec_segments(self.deep_view(), parent@),
    {
        let es = self.children(parent);
        let ghost esv = es.deep_view();
        let mut r: Vec<(String, Entry)> = Vec::new();
        let mut i: usize = 0;
        assert(r.deep_view() =~= segments_fold(esv.take(0)));
        while i < es.len()
            invariant
                i <= es@.len(),
                esv == es.deep_view(),
                r.deep_view() == segments_fold(esv.take(i as int)),
            decreases es.len() - i,
        {
            assert(esv.take(i + 1).drop_last() =~= esv.take(i as int));
            assert(esv.take(i + 1).last() == es@[i as int].deep_view());
            if !is_index(&es[i]) {
                match entry_name(&es[i]) {
                    Some(n) => {
                        assoc_insert(&mut r, n, es[i].duplicate(), false);
                    },
                    None => {},
                }
            }
            i = i + 1;
        }
        assert(esv.take(es@.len() as int) =~= esv);
        r
    }

    /// Every segment (see `spec_all_segments`).
    pub fn all_segments(&self) -> (r: Vec<Segment>)
        requires
            self.wf(),
        ensures
            r.deep_view() == spec_all_segments(self.deep_view()),
    {
        let layers = self.layers();
        let ghost lv = layers.deep_view();
        let ghost pv = self.deep_view();
        let mut r: Vec<Segment> = Vec::new();
        let mut i: usize = 0;
        assert(r.deep_view() =~= all_segments_fold(pv, lv.take(0)));
        while i < layers.len()
            invariant
                self.wf(),
                pv == self.deep_view(),
                i <= layers@.len(),
                lv == layers.deep_view(),
                r.deep_view() == all_segments_fold(pv, lv.take(i as int)),
            decreases layers.len() - i,
        {
            assert(lv.take(i + 1).drop_last() =~= lv.take(i as int));
            assert(lv.take(i + 1).last() == layers@[i as int].deep_view());
            let layer_name = &layers[i].0;
            let layer_path = &layers[i].1;
            if Self::is_sliced(layer_name.as_str()) {
                let sl = self.slices(layer_name.as_str(), layer_path.as_str());
                let ghost slv = sl.deep_view();
                let ghost before = r.deep_view();
                let mut j: usize = 0;
                assert(slice_segments_fold(pv, layer_name@, slv.take(0)) =~= Seq::<SegmentView>::empty());
                while j < sl.len()
                    invariant
                        self.wf(),
                        pv == self.deep_view(),
                        j <= sl@.len(),
                        slv == sl.deep_view(),
                        r.deep_view() == before + slice_segments_fold(pv, layer_name@, slv.take(j as int)),
                    decreases sl.len() - j,
                {
                    assert(slv.take(j + 1).drop_last() =~= slv.take(j as int));
                    assert(slv.take(j + 1).last() == sl@[j as int].deep_view());
                    let sg = self.segments(sl[j].1.as_str());
                    self.push_segments(&mut r, layer_name, Some(sl[j].0.clone()), &sg);
                    assert(before + slice_segments_fold(pv, layer_name@, slv.take(j + 1)) =~= before
                        + slice_segments_fold(pv, layer_name@, slv.take(j as int)) + segments_of(
                        layer_name@,
                        Some(slv[j as int].0),
                        spec_segments(pv, slv[j as int].1),
                    ));
                    j = j + 1;
                }
                assert(slv.take(sl@.len() as int) =~= slv);
            } else {
                let sg = self.segments(layer_path.as_str());
                self.push_segments(&mut r, layer_name, None, &sg);
            }
            i = i + 1;
        }
        assert(lv.take(layers@.len() as int) =~= lv);
        r
    }

    fn push_segments(
        &self,
        r: &mut Vec<Segment>,
        layer_name: &String,
        slice_name: Option<String>,
        sg: &Vec<(String, Entry)>,
    )
        ensures
            final(r).deep_view() == old(r).deep_view() + segments_of(
                layer_name@,
                slice_name.deep_view(),
                sg.deep_view(),
            ),
    {
        let ghost sgv = sg.deep_view();
        let ghost before = old(r).deep_view();
        let mut j: usize = 0;
        while j < sg.len()
            invariant
                j <= sg@.len(),
                sgv == sg.deep_view(),
                before == old(r).deep_view(),
                r.deep_view() == before + segments_of(
                    layer_name@,
                    slice_name.deep_view(),
                    sgv.take(j as int),
                ),
            decreases sg.len() - j,
        {
            let ghost prev = r.deep_view();
            let sn = match &slice_name {
                Some(s) => Some(s.clone()),
                None => None,
            };
            let seg = Segment {
                layer_name: layer_name.clone(),
                slice_name: sn,
                name: sg[j].0.clone(),
                entry: sg[j].1.duplicate(),
            };
            r.push(seg);
            let ghost sv = SegmentView {
                layer_name: layer_name@,
                slice_name: slice_name.deep_view(),
                name: sgv[j as int].0,
                entry: sgv[j as int].1,
            };
            assert(r.deep_view() =~= prev.push(sv));
            assert(segments_of(layer_name@, slice_name.deep_view(), sgv.take(j + 1)) =~= segments_of(
                layer_name@,
                slice_name.deep_view(),
                sgv.take(j as int),
            ).push(sv));
            j = j + 1;
        }
        assert(sgv.take(sg@.len() as int) =~= sgv);
    }

    /// The index files among the children of `parent` (see `spec_indexes`).
    pub fn indexes(&self, parent: &str) -> (r: Vec<String>)
        requires
            self.wf(),
        ensures
            r.deep_view() == spec_indexes(self.deep_view(), parent@),
    {
        let es = self.children(parent);
        let ghost esv = es.deep_view();
        let mut r: Vec<String> = Vec::new();
        let mut i: usize = 0;
        assert(r.deep_view() =~= index_paths(esv.take(0)));
        while i < es.len()
            invariant
                i <= es@.len(),
                esv == es.deep_view(),
                r.deep_view() == index_paths(esv.take(i as int)),
            decreases es.len() - i,
        {
            assert(esv.take(i + 1).drop_last() =~= esv.take(i as int));
            assert(esv.take(i + 1).last() == es@[i as int].deep_view());
            if is_index(&es[i]) {
                r.push(es[i].path.clone());
                assert(r.deep_view() =~= index_paths(esv.take(i as int)).push(es@[i as int].path@));
            }
            i = i + 1;
        }
        assert(esv.take(es@.len() as int) =~= esv);
        r
    }

    /// The same project restricted to `files`.
    pub fn with_files(&self, files: Vec<String>) -> (r: Project)
        ensures
            r.wf(),
            r.root@ == self.root@,
            r.files.deep_view() == files.deep_view(),
    {
        Self::from_files(self.root.clone(), files)
    }
}

/// Where a source file sits in the layer structure.
#[derive(Debug, Clone, PartialEq, Eq)]
pub struct SourceLocation {
    pub layer_name: String,
    pub layer_path: String,
    pub slice_name: Option<String>,
    pub slice_path: Option<String>,
    pub segment_name: Option<String>,
}

pub struct SourceLocationView {
    pub layer_name: Seq<char>,
    pub layer_path: Seq<char>,
    pub slice_name: Option<Seq<char>>,
    pub slice_path: Option<Seq<char>>,
    pub segment_name: Option<Seq<char>>,
}

impl DeepView for SourceLocation {
    type V = SourceLocationView;

    open spec fn deep_view(&self) -> SourceLocationView {
        SourceLocationView {
            layer_name: self.layer_name@,
            layer_path: self.layer_path@,
            slice_name: self.slice_name.deep_view(),
            slice_path: self.slice_path.deep_view(),
            segment_name: self.segment_name.deep_view(),
        }
    }
}

fn clone_opt(o: &Option<String>) -> (r: Option<String>)
    ensures
        r.deep_view() == o.deep_view(),
{
    match o {
        Some(s) => Some(s.clone()),
        None => None,
    }
}

impl SourceLocation {
    pub fn duplicate(&self) -> (r: SourceLocation)
        ensures
            r.deep_view() == self.deep_view(),
    {
        SourceLocation {
            layer_name: self.layer_name.clone(),
            layer_path: self.layer_path.clone(),
            slice_name: clone_opt(&self.slice_name),
            slice_path: clone_opt(&self.slice_path),
            segment_name: clone_opt(&self.segment_name),
        }
    }
}

pub type IndexView = Seq<(Seq<char>, SourceLocationView)>;

/// The files among `es` recorded at `loc`.
pub open spec fn index_files_of(m: IndexView, es: Seq<EntryView>, loc: SourceLocationView) -> IndexView
    decreases es.len(),
{
    if es.len() == 0 {
        m
    } else {
        let m1 = index_files_of(m, es.drop_last(), loc);
        if es.last().kind == EntryKind::File {
            assoc_put(m1, es.last().path, loc, true)
        } else {
            m1
        }
    }
}

/// The paths recorded at `loc`.
pub open spec fn index_paths_at(m: IndexView, paths: Seq<Seq<char>>, loc: SourceLocationView) -> IndexView
    decreases paths.len(),
{
    if paths.len() == 0 {
        m
    } else {
        assoc_put(index_paths_at(m, paths.drop_last(), loc), paths.last(), loc, true)
    }
}

/// Records a file at `loc`, or every file below a folder.
pub open spec fn index_entry(p: ProjectView, m: IndexView, e: EntryView, loc: SourceLocationView) -> IndexView
    decreases tree_bound(p) - e.path.len(), 1nat, 0int,
{
    match e.kind {
        EntryKind::File => assoc_put(m, e.path, loc, true),
        EntryKind::Folder => index_children(p, m, e.path, spec_children(p, e.path).len() as int, loc),
    }
}

/// Records the files below the first `k` children of `parent`, in order.
pub open spec fn index_children(p: ProjectView, m: IndexView, parent: Seq<char>, k: int, loc: SourceLocationView) -> IndexView
    decreases tree_bound(p) - parent.len(), 0nat, k,
{
    if k <= 0 || k > spec_children(p, parent).len() {
        m
    } else {
        let m1 = index_children(p, m, parent, k - 1, loc);
        let e = spec_children(p, parent)[k - 1];
        match e.kind {
            EntryKind::File => assoc_put(m1, e.path, loc, true),
            EntryKind::Folder => {
                proof {
                    lemma_child_folders(p, parent);
                    assert(spec_children(p, parent).contains(e));
                }
                index_entry(p, m1, e, loc)
            },
        }
    }
}

/// `loc` with the segment named.
pub open spec fn with_segment(loc: SourceLocationView, name: Seq<char>) -> SourceLocationView {
    SourceLocationView { segment_name: Some(name), ..loc }
}

/// Records the files of each segment, at `loc` with that segment.
pub open spec fn index_segments(p: ProjectView, m: IndexView, sg: Seq<(Seq<char>, EntryView)>, loc: SourceLocationView) -> IndexView
    decreases sg.len(),
{
    if sg.len() == 0 {
        m
    } else {
        let (name, e) = sg.last();
        index_entry(p, index_segments(p, m, sg.drop_last(), loc), e, with_segment(loc, name))
    }
}

pub open spec fn slice_location(layer_name: Seq<char>, layer_path: Seq<char>, slice_name: Seq<char>, slice_path: Seq<char>) -> SourceLocationView {
    SourceLocationView {
        layer_name: layer_name,
        layer_path: layer_path,
        slice_name: Some(slice_name),
        slice_path: Some(slice_path),
        segment_name: None,
    }
}

pub open spec fn layer_location(layer_name: Seq<char>, layer_path: Seq<char>) -> SourceLocationView {
    SourceLocationView {
        layer_name: layer_name,
        layer_path: layer_path,
        slice_name: None,
        slice_path: None,
        segment_name: None,
    }
}

/// Records each slice: the files of its segments, then its index files.
pub open spec fn index_slices(p: ProjectView, m: IndexView, layer_name: Seq<char>, layer_path: Seq<char>, sl: Seq<(Seq<char>, Seq<char>)>) -> IndexView
    decreases sl.len(),
{
    if sl.len() == 0 {
        m
    } else {
        let (slice_name, slice_path) = sl.last();
        let loc = slice_location(layer_name, layer_path, slice_name, slice_path);
        let m1 = index_slices(p, m, layer_name, layer_path, sl.drop_last());
        let m2 = index_segments(p, m1, spec_segments(p, slice_path), loc);
        index_paths_at(m2, spec_indexes(p, slice_path), loc)
    }
}

/// Records each layer: its direct files, then its slices or its segments.
pub open spec fn index_layers(p: ProjectView, ls: Seq<(Seq<char>, Seq<char>)>) -> IndexView
    decreases ls.len(),
{
    if ls.len() == 0 {
        Seq::empty()
    } else {
        let (layer_name, layer_path) = ls.last();
        let loc = layer_location(layer_name, layer_path);
        let m1 = index_files_of(index_layers(p, ls.drop_last()), spec_children(p, layer_path), loc);
        if spec_is_sliced(layer_name) {
            index_slices(p, m1, layer_name, layer_path, spec_slices(p, layer_path))
        } else {
            index_segments(p, m1, spec_segments(p, layer_path), loc)
        }
    }
}

/// For each file in the layer structure, in path order, its location.
pub open spec fn spec_source_index(p: ProjectView) -> IndexView {
    index_layers(p, spec_layers(p))
}

/// `d` and every folder below it, depth first: `d` itself, then the walk
/// below each child folder, the last child first.
pub open spec fn walk_from(p: ProjectView, d: Seq<char>) -> Seq<Seq<char>>
    decreases tree_bound(p) - d.len(), 1nat, 0int,
{
    seq![d] + walk_children(p, d, spec_child_directories(p, d).len() as int)
}

/// The walks below the first `k` child folders of `d`, the `k`-th first.
pub open spec fn walk_children(p: ProjectView, d: Seq<char>, k: int) -> Seq<Seq<char>>
    decreases tree_bound(p) - d.len(), 0nat, k,
{
    if k <= 0 || k > spec_child_directories(p, d).len() {
        Seq::empty()
    } else {
        let c = spec_child_directories(p, d)[k - 1];
        proof {
            lemma_child_directories(p, d);
            assert(spec_child_directories(p, d).contains(c));
        }
        walk_from(p, c) + walk_children(p, d, k - 1)
    }
}

/// What is still to be walked from a stack of pending folders, the top
/// (last) one first.
pub open spec fn walk_pending(p: ProjectView, pending: Seq<Seq<char>>) -> Seq<Seq<char>>
    decreases pending.len(),
{
    if pending.len() == 0 {
        Seq::empty()
    } else {
        walk_from(p, pending.last()) + walk_pending(p, pending.drop_last())
    }
}

/// `root` and every folder below it, in the order of a depth-first walk.
pub open spec fn spec_descendant_directories(p: ProjectView, root: Seq<char>) -> Seq<Seq<char>> {
    walk_from(p, root)
}

/// Pushing the first `k` child folders of `d` onto a stack puts their walks,
/// the last pushed first, ahead of what the stack held.
pub proof fn lemma_walk_pending_children(p: ProjectView, rest: Seq<Seq<char>>, d: Seq<char>, k: int)
    requires
        0 <= k <= spec_child_directories(p, d).len(),
    ensures
        walk_pending(p, rest + spec_child_directories(p, d).take(k)) == walk_children(p, d, k) + walk_pending(p, rest),
    decreases k,
{
    let kids = spec_child_directories(p, d);
    if k == 0 {
        assert(rest + kids.take(0) =~= rest);
        assert(walk_children(p, d, 0) + walk_pending(p, rest) =~= walk_pending(p, rest));
    } else {
        let s = rest + kids.take(k);
        assert(s.drop_last() =~= rest + kids.take(k - 1));
        assert(s.last() == kids[k - 1]);
        lemma_walk_pending_children(p, rest, d, k - 1);
        assert(walk_pending(p, s) =~= walk_children(p, d, k) + walk_pending(p, rest));
    }
}

impl Project {
    fn index_entry_files(&self, e: &Entry, loc: &SourceLocation, index: &mut Vec<(String, SourceLocation)>)
        requires
            self.wf(),
        ensures
            final(index).deep_view() == index_entry(self.deep_view(), old(index).deep_view(), e.deep_view(), loc.deep_view()),
        decreases tree_bound(self.deep_view()) - e.path@.len(), 1nat,
    {
        match e.kind {
            EntryKind::File => {
                assoc_insert(index, e.path.clone(), loc.duplicate(), true);
            },
            EntryKind::Folder => {
                self.index_children(e.path.as_str(), loc, index);
            },
        }
    }

    fn index_children(&self, parent: &str, loc: &SourceLocation, index: &mut Vec<(String, SourceLocation)>)
        requires
            self.wf(),
        ensures
            final(index).deep_view() == index_children(
                self.deep_view(),
                old(index).deep_view(),
                parent@,
                spec_children(self.deep_view(), parent@).len() as int,
                loc.deep_view(),
            ),
        decreases tree_bound(self.deep_view()) - parent@.len(), 0nat,
    {
        let es = self.children(parent);
        let ghost esv = es.deep_view();
        let ghost start = old(index).deep_view();
        proof {
            lemma_child_folders(self.deep_view(), parent@);
        }
        let mut i: usize = 0;
        while i < es.len()
            invariant
                self.wf(),
                i <= es@.len(),
                esv == es.deep_view(),
                esv == spec_children(self.deep_view(), parent@),
                forall|x: EntryView|
                    #[trigger] esv.contains(x) && x.kind == EntryKind::Folder ==> parent@.len() < x.path.len()
                        <= tree_bound(self.deep_view()),
                start == old(index).deep_view(),
                index.deep_view() == index_children(self.deep_view(), start, parent@, i as int, loc.deep_view()),
            decreases es.len() - i,
        {
            assert(esv[i as int] == es@[i as int].deep_view());
            assert(esv.contains(esv[i as int]));
            match es[i].kind {
                EntryKind::File => {
                    assoc_insert(index, es[i].path.clone(), loc.duplicate(), true);
                },
                EntryKind::Folder => {
                    self.index_entry_files(&es[i], loc, index);
                },
            }
            i = i + 1;
        }
    }

    fn index_segments(&self, sg: &Vec<(String, Entry)>, loc: &SourceLocation, index: &mut Vec<(String, SourceLocation)>)
        requires
            self.wf(),
        ensures
            final(index).deep_view() == index_segments(self.deep_view(), old(index).deep_view(), sg.deep_view(), loc.deep_view()),
    {
        let ghost sgv = sg.deep_view();
        let ghost start = old(index).deep_view();
        let mut i: usize = 0;
        assert(sgv.take(0) =~= Seq::<(Seq<char>, EntryView)>::empty());
        while i < sg.len()
            invariant
                self.wf(),
                i <= sg@.len(),
                sgv == sg.deep_view(),
                start == old(index).deep_view(),
                index.deep_view() == index_segments(self.deep_view(), start, sgv.take(i as int), loc.deep_view()),
            decreases sg.len() - i,
        {
            assert(sgv.take(i + 1).drop_last() =~= sgv.take(i as int));
            assert(sgv.take(i + 1).last() == sg@[i as int].deep_view());
            let mut l = loc.duplicate();
            l.segment_name = Some(sg[i].0.clone());
            assert(l.deep_view() == with_segment(loc.deep_view(), sg@[i as int].0@));
            self.index_entry_files(&sg[i].1, &l, index);
            i = i + 1;
        }
        assert(sgv.take(sg@.len() as int) =~= sgv);
    }

    fn index_paths_at(paths: &Vec<String>, loc: &SourceLocation, index: &mut Vec<(String, SourceLocation)>)
        ensures
            final(index).deep_view() == index_paths_at(old(index).deep_view(), paths.deep_view(), loc.deep_view()),
    {
        let ghost pv = paths.deep_view();
        let ghost start = old(index).deep_view();
        let mut i: usize = 0;
        assert(pv.take(0) =~= Seq::<Seq<char>>::empty());
        while i < paths.len()
            invariant
                i <= paths@.len(),
                pv == paths.deep_view(),
                start == old(index).deep_view(),
                index.deep_view() == index_paths_at(start, pv.take(i as int), loc.deep_view()),
            decreases paths.len() - i,
        {
            assert(pv.take(i + 1).drop_last() =~= pv.take(i as int));
            assert(pv.take(i + 1).last() == paths@[i as int]@);
            assoc_insert(index, paths[i].clone(), loc.duplicate(), true);
            i = i + 1;
        }
        assert(pv.take(paths@.len() as int) =~= pv);
    }

    /// For each file in the layer structure, its location (see `spec_source_index`).
    pub fn source_index(&self) -> (r: Vec<(String, SourceLocation)>)
        requires
            self.wf(),
        ensures
            r.deep_view() == spec_source_index(self.deep_view()),
    {
        let layers = self.layers();
        let ghost lv = layers.deep_view();
        let ghost pv = self.deep_view();
        let mut index: Vec<(String, SourceLocation)> = Vec::new();
        let mut i: usize = 0;
        assert(index.deep_view() =~= index_layers(pv, lv.take(0)));
        while i < layers.len()
            invariant
                self.wf(),
                pv == self.deep_view(),
                i <= layers@.len(),
                lv == layers.deep_view(),
                index.deep_view() == index_layers(pv, lv.take(i as int)),
            decreases layers.len() - i,
        {
            assert(lv.take(i + 1).drop_last() =~= lv.take(i as int));
            assert(lv.take(i + 1).last() == layers@[i as int].deep_view());
            let layer_name = &layers[i].0;
            let layer_path = &layers[i].1;
            let loc = SourceLocation {
                layer_name: layer_name.clone(),
                layer_path: layer_path.clone(),
                slice_name: None,
                slice_path: None,
                segment_name: None,
            };
            let es = self.children(layer_path.as_str());
            let ghost esv = es.deep_view();
            let ghost before = index.deep_view();
            let mut j: usize = 0;
            assert(esv.take(0) =~= Seq::<EntryView>::empty());
            while j < es.len()
                invariant
                    j <= es@.len(),
                    esv == es.deep_view(),
                    index.deep_view() == index_files_of(before, esv.take(j as int), loc.deep_view()),
                decreases es.len() - j,
            {
                assert(esv.take(j + 1).drop_last() =~= esv.take(j as int));
                assert(esv.take(j + 1).last() == es@[j as int].deep_view());
                if es[j].kind == EntryKind::File {
                    assoc_insert(&mut index, es[j].path.clone(), loc.duplicate(), true);
                }
                j = j + 1;
            }
            assert(esv.take(es@.len() as int) =~= esv);
            if Self::is_sliced(layer_name.as_str()) {
                let sl = self.slices(layer_name.as_str(), layer_path.as_str());
                let ghost slv = sl.deep_view();
                let ghost before2 = index.deep_view();
                let mut k: usize = 0;
                assert(slv.take(0) =~= Seq::<(Seq<char>, Seq<char>)>::empty());
                while k < sl.len()
                    invariant
                        self.wf(),
                        pv == self.deep_view(),
                        k <= sl@.len(),
                        slv == sl.deep_view(),
                        index.deep_view() == index_slices(pv, before2, layer_name@, layer_path@, slv.take(k as int)),
                    decreases sl.len() - k,
                {
                    assert(slv.take(k + 1).drop_last() =~= slv.take(k as int));
                    assert(slv.take(k + 1).last() == sl@[k as int].deep_view());
                    let sloc = SourceLocation {
                        layer_name: layer_name.clone(),
                        layer_path: layer_path.clone(),
                        slice_name: Some(sl[k].0.clone()),
                        slice_path: Some(sl[k].1.clone()),
                        segment_name: None,
                    };
                    let sg = self.segments(sl[k].1.as_str());
                    self.index_segments(&sg, &sloc, &mut index);
                    let idx = self.indexes(sl[k].1.as_str());
                    Self::index_paths_at(&idx, &sloc, &mut index);
                    k = k + 1;
                }
                assert(slv.take(sl@.len() as int) =~= slv);
            } else {
                let sg = self.segments(layer_path.as_str());
                self.index_segments(&sg, &loc, &mut index);
            }
            i = i + 1;
        }
        assert(lv.take(layers@.len() as int) =~= lv);
        index
    }

    /// `root` and every folder below it (see `spec_descendant_directories`).
    pub fn descendant_directories(&self, root: &str) -> (r: Vec<String>)
        requires
            self.wf(),
        ensures
            r.deep_view() == spec_descendant_directories(self.deep_view(), root@),
    {
        let ghost pv = self.deep_view();
        let ghost total = spec_descendant_directories(pv, root@);
        let mut descendants: Vec<String> = Vec::new();
        let mut pending: Vec<String> = Vec::new();
        pending.push(root.to_owned());
        proof {
            assert(pending.deep_view() =~= seq![root@]);
            assert(pending.deep_view().drop_last() =~= Seq::<Seq<char>>::empty());
            assert(walk_pending(pv, pending.deep_view()) == walk_from(pv, root@) + walk_pending(pv, Seq::empty()));
            assert(descendants.deep_view() + walk_pending(pv, pending.deep_view()) =~= total);
        }
        while pending.len() > 0
            invariant
                self.wf(),
                pv == self.deep_view(),
                descendants.deep_view() + walk_pending(pv, pending.deep_view()) == total,
            decreases walk_pending(pv, pending.deep_view()).len(),
        {
            let ghost pend = pending.deep_view();
            let ghost vis = descendants.deep_view();
            let directory = pending.pop().unwrap();
            assert(pending.deep_view() =~= pend.drop_last());
            let kids = self.child_directories(directory.as_str());
            let ghost kv = kids.deep_view();
            let mut k: usize = 0;
            while k < kids.len()
                invariant
                    k <= kids@.len(),
                    kv == kids.deep_view(),
                    pending.deep_view() == pend.drop_last() + kv.take(k as int),
                decreases kids.len() - k,
            {
                let ghost before = pending.deep_view();
                pending.push(kids[k].clone());
                assert(pending.deep_view() =~= before.push(kids@[k as int]@));
                assert(kv.take(k + 1) =~= kv.take(k as int).push(kids@[k as int]@));
                k = k + 1;
            }
            descendants.push(directory);
            proof {
                let d = pend.last();
                lemma_walk_pending_children(pv, pend.drop_last(), d, kv.len() as int);
                assert(kv.take(kv.len() as int) =~= kv);
                assert(descendants.deep_view() =~= vis.push(d));
                assert(walk_pending(pv, pend) == seq![d] + walk_children(pv, d, kv.len() as int) + walk_pending(pv, pend.drop_last()));
                assert(descendants.deep_view() + walk_pending(pv, pending.deep_view()) =~= vis + walk_pending(pv, pend));
            }
        }
        proof {
            assert(descendants.deep_view() + walk_pending(pv, pending.deep_view()) =~= descendants.deep_view());
        }
        descendants
    }
}


/// The form of a canonical Windows path under which the resolver's answers
/// are keyed: a verbatim UNC prefix becomes `\\`, a verbatim prefix before a
/// drive letter is dropped, and any other path is kept.
pub open spec fn spec_resolver_key(p: Seq<char>) -> Seq<char> {
    if has_prefix(p, verbatim_unc()) {
        seq!['\\', '\\'] + p.skip(8)
    } else if has_prefix(p, verbatim()) && p.len() > 5 && p[5] == ':' {
        p.skip(4)
    } else {
        p
    }
}

/// Removes the verbatim prefix that `canonicalize` adds on Windows, so that
/// resolved paths match the scanned ones.
pub fn normalize_canonical_path(path: &str) -> (r: String)
    ensures
        r@ == spec_resolver_key(path@),
{
    let cs = chars_of(path);
    let unc = vec!['\\', '\\', '?', '\\', 'U', 'N', 'C', '\\'];
    let verb = vec!['\\', '\\', '?', '\\'];
    assert(unc@ =~= verbatim_unc());
    assert(verb@ =~= verbatim());
    if chars_have_prefix(&cs, &unc) {
        let mut r = String::new();
        push_char(&mut r, '\\');
        push_char(&mut r, '\\');
        let rest = string_of_range(&cs, 8, cs.len());
        push_text(&mut r, rest.as_str());
        assert(r@ =~= seq!['\\', '\\'] + cs@.skip(8));
        r
    } else if chars_have_prefix(&cs, &verb) && cs.len() > 5 && cs[5] == ':' {
        let r = string_of_range(&cs, 4, cs.len());
        assert(r@ =~= cs@.skip(4));
        r
    } else {
        string_of_range(&cs, 0, cs.len())
    }
}


/// Whether a component of `path` is `.git`, `node_modules` or `target`:
/// folders that are never linted or watched.
pub open spec fn spec_has_ignored_component(path: Seq<char>) -> bool {
    exists|i: int| 0 <= i < split_slash(path).len() && is_ignored_folder_name(#[trigger] split_slash(path)[i])
}

pub open spec fn is_ignored_folder_name(n: Seq<char>) -> bool {
    n == ".git"@ || n == "node_modules"@ || n == "target"@
}

/// Whether a change at `path` is one that watching ignores (see
/// `spec_has_ignored_component`).
pub fn is_ignored_watch_path(path: &str) -> (r: bool)
    ensures
        r == spec_has_ignored_component(path@),
{
    let parts = split_on_slash(&path.to_owned());
    let ghost pv = parts.deep_view();
    let mut i: usize = 0;
    while i < parts.len()
        invariant
            i <= pv.len(),
            pv == parts.deep_view(),
            pv.len() == parts@.len(),
            pv == split_slash(path@),
            forall|j: int| 0 <= j < i ==> !is_ignored_folder_name(#[trigger] pv[j]),
        decreases parts.len() - i,
    {
        assert(pv[i as int] == parts@[i as int]@);
        if text_eq(parts[i].as_str(), ".git") || text_eq(parts[i].as_str(), "node_modules") || text_eq(
            parts[i].as_str(),
            "target",
        ) {
            assert(is_ignored_folder_name(pv[i as int]));
            return true;
        }
        i = i + 1;
    }
    false
}

/// `sorted` with `x` inserted after every path that does not come after it.
pub open spec fn insert_path(sorted: Seq<Seq<char>>, x: Seq<char>) -> Seq<Seq<char>>
    decreases sorted.len(),
{
    if sorted.len() == 0 {
        seq![x]
    } else if path_lt(x, sorted.last()) {
        insert_path(sorted.drop_last(), x).push(sorted.last())
    } else {
        sorted.push(x)
    }
}

/// The paths in path order.
pub open spec fn sort_paths(ps: Seq<Seq<char>>) -> Seq<Seq<char>>
    decreases ps.len(),
{
    if ps.len() == 0 {
        Seq::empty()
    } else {
        insert_path(sort_paths(ps.drop_last()), ps.last())
    }
}

proof fn lemma_insert_path_at(s: Seq<Seq<char>>, x: Seq<char>, j: int)
    requires
        0 <= j <= s.len(),
        forall|k: int| j <= k < s.len() ==> path_lt(x, #[trigger] s[k]),
        j == 0 || !path_lt(x, s[j - 1]),
    ensures
        insert_path(s, x) == s.take(j) + seq![x] + s.skip(j),
    decreases s.len(),
{
    if s.len() == j {
        if j == 0 {
            assert(s.take(0) + seq![x] + s.skip(0) =~= seq![x]);
        } else {
            assert(s.take(j) + seq![x] + s.skip(j) =~= s.push(x));
        }
    } else {
        assert(path_lt(x, s[s.len() - 1]));
        let t = s.drop_last();
        assert forall|k: int| j <= k < t.len() implies path_lt(x, #[trigger] t[k]) by {
            assert(t[k] == s[k]);
        }
        if j > 0 {
            assert(t[j - 1] == s[j - 1]);
        }
        lemma_insert_path_at(t, x, j);
        assert((t.take(j) + seq![x] + t.skip(j)).push(s.last()) =~= s.take(j) + seq![x] + s.skip(j));
    }
}

/// The paths not left out by the configuration's global ignores, in order.
pub open spec fn not_ignored(c: crate::config::ConfigView, ps: Seq<Seq<char>>) -> Seq<Seq<char>>
    decreases ps.len(),
{
    if ps.len() == 0 {
        Seq::empty()
    } else if crate::config::spec_matches_patterns(ps.last(), c.global_ignores) {
        not_ignored(c, ps.drop_last())
    } else {
        not_ignored(c, ps.drop_last()).push(ps.last())
    }
}

impl Project {
    /// The project below `root` (a canonical path) holding the files that a
    /// walk of it found, less those that the configuration ignores, in path
    /// order.
    pub fn scan(root: &str, walked_files: &Vec<String>, config: &crate::config::Config) -> (r: Project)
        requires
            config.wf(),
        ensures
            r.wf(),
            r.root@ == spec_resolver_key(root@),
            r.files.deep_view() == sort_paths(not_ignored(config.deep_view(), walked_files.deep_view())),
    {
        let ghost wv = walked_files.deep_view();
        let mut kept: Vec<String> = Vec::new();
        assert(kept.deep_view() =~= not_ignored(config.deep_view(), wv.take(0)));
        let mut i: usize = 0;
        while i < walked_files.len()
            invariant
                i <= wv.len(),
                wv == walked_files.deep_view(),
                wv.len() == walked_files@.len(),
                config.wf(),
                kept.deep_view() == not_ignored(config.deep_view(), wv.take(i as int)),
            decreases walked_files.len() - i,
        {
            assert(wv.take(i + 1).drop_last() =~= wv.take(i as int));
            assert(wv.take(i + 1).last() == walked_files@[i as int]@);
            if !config.is_global_ignored(walked_files[i].as_str()) {
                let ghost b = kept.deep_view();
                kept.push(walked_files[i].clone());
                assert(kept.deep_view() =~= b.push(walked_files@[i as int]@));
            }
            i = i + 1;
        }
        assert(wv.take(wv.len() as int) =~= wv);
        let ghost kv = kept.deep_view();
        let mut files: Vec<String> = Vec::new();
        assert(files.deep_view() =~= sort_paths(kv.take(0)));
        let mut k: usize = 0;
        while k < kept.len()
            invariant
                k <= kv.len(),
                kv == kept.deep_view(),
                kv.len() == kept@.len(),
                files.deep_view() == sort_paths(kv.take(k as int)),
            decreases kept.len() - k,
        {
            assert(kv.take(k + 1).drop_last() =~= kv.take(k as int));
            assert(kv.take(k + 1).last() == kept@[k as int]@);
            let ghost s = files.deep_view();
            let mut j = files.len();
            while j > 0 && text_lt(kept[k].as_str(), files[j - 1].as_str(), true)
                invariant
                    j <= files@.len(),
                    k < kept@.len(),
                    s == files.deep_view(),
                    forall|m: int| j <= m < s.len() ==> path_lt(kept@[k as int]@, #[trigger] s[m]),
                decreases j,
            {
                assert(s[j - 1] == files@[j - 1]@);
                j = j - 1;
            }
            proof {
                if j > 0 {
                    assert(s[j - 1] == files@[j - 1]@);
                }
                lemma_insert_path_at(s, kept@[k as int]@, j as int);
            }
            files.insert(j, kept[k].clone());
            assert(files.deep_view() =~= s.take(j as int) + seq![kept@[k as int]@] + s.skip(j as int));
            k = k + 1;
        }
        assert(kv.take(kv.len() as int) =~= kv);
        let normalized = normalize_canonical_path(root);
        Project::from_files(normalized, files)
    }
}


proof fn lemma_insert_path_elements(s: Seq<Seq<char>>, x: Seq<char>)
    ensures
        forall|y: Seq<char>| #[trigger] insert_path(s, x).contains(y) <==> s.contains(y) || y == x,
    decreases s.len(),
{
    if s.len() == 0 {
        assert(insert_path(s, x) == seq![x]);
        assert forall|y: Seq<char>| #[trigger] insert_path(s, x).contains(y) <==> s.contains(y) || y == x by {
            if y == x {
                assert(seq![x][0] == x);
            }
        }
    } else if path_lt(x, s.last()) {
        let t = s.drop_last();
        lemma_insert_path_elements(t, x);
        let r = insert_path(t, x);
        assert(insert_path(s, x) == r.push(s.last()));
        assert forall|y: Seq<char>| #[trigger] insert_path(s, x).contains(y) <==> s.contains(y) || y == x by {
            let q = r.push(s.last());
            if q.contains(y) {
                let i = choose|i: int| 0 <= i < q.len() && q[i] == y;
                if i < r.len() {
                    assert(r[i] == y);
                    assert(r.contains(y));
                    if t.contains(y) {
                        let j = choose|j: int| 0 <= j < t.len() && t[j] == y;
                        assert(s[j] == y);
                    }
                } else {
                    assert(s[s.len() - 1] == y);
                }
            }
            if s.contains(y) {
                let i = choose|i: int| 0 <= i < s.len() && s[i] == y;
                if i < s.len() - 1 {
                    assert(t[i] == y);
                    assert(t.contains(y));
                    assert(insert_path(t, x).contains(y));
                    assert(r.contains(y));
                    let j = choose|j: int| 0 <= j < r.len() && r[j] == y;
                    assert(q[j] == y);
                } else {
                    assert(q[r.len() as int] == y);
                }
            }
            if y == x {
                assert(r.contains(x));
                let j = choose|j: int| 0 <= j < r.len() && r[j] == x;
                assert(q[j] == x);
            }
        }
    } else {
        assert(insert_path(s, x) == s.push(x));
        assert forall|y: Seq<char>| #[trigger] insert_path(s, x).contains(y) <==> s.contains(y) || y == x by {
            let q = s.push(x);
            if q.contains(y) {
                let i = choose|i: int| 0 <= i < q.len() && q[i] == y;
                if i < s.len() {
                    assert(s[i] == y);
                }
            }
            if s.contains(y) {
                let i = choose|i: int| 0 <= i < s.len() && s[i] == y;
                assert(q[i] == y);
            }
            if y == x {
                assert(q[s.len() as int] == x);
            }
        }
    }
}

/// Whether the paths are in path order.
pub open spec fn paths_sorted(s: Seq<Seq<char>>) -> bool {
    forall|i: int, j: int| 0 <= i < j < s.len() ==> !path_lt(#[trigger] s[j], #[trigger] s[i])
}

proof fn lemma_insert_path_sorted(s: Seq<Seq<char>>, x: Seq<char>)
    requires
        paths_sorted(s),
    ensures
        paths_sorted(insert_path(s, x)),
    decreases s.len(),
{
    if s.len() == 0 {
        assert(insert_path(s, x) == seq![x]);
    } else if path_lt(x, s.last()) {
        let t = s.drop_last();
        assert forall|i: int, j: int| 0 <= i < j < t.len() implies !path_lt(#[trigger] t[j], #[trigger] t[i]) by {
            assert(t[i] == s[i] && t[j] == s[j]);
        }
        lemma_insert_path_sorted(t, x);
        lemma_insert_path_elements(t, x);
        let r = insert_path(t, x);
        let last = s.last();
        assert(insert_path(s, x) == r.push(last));
        assert forall|i: int| 0 <= i < r.len() implies !path_lt(last, #[trigger] r[i]) by {
            assert(r.contains(r[i]));
            if r[i] == x {
                crate::order::lemma_lex_asymmetric(x, last, true);
            } else {
                assert(t.contains(r[i]));
                let k = choose|k: int| 0 <= k < t.len() && t[k] == r[i];
                assert(s[k] == r[i]);
                assert(!path_lt(s[s.len() - 1], s[k]));
            }
        }
        let q = r.push(last);
        assert forall|i: int, j: int| 0 <= i < j < q.len() implies !path_lt(#[trigger] q[j], #[trigger] q[i]) by {
            if j < r.len() {
                assert(q[i] == r[i] && q[j] == r[j]);
            } else {
                assert(q[j] == last);
                assert(q[i] == r[i]);
            }
        }
    } else {
        let last = s.last();
        assert(insert_path(s, x) == s.push(x));
        let q = s.push(x);
        assert forall|i: int, j: int| 0 <= i < j < q.len() implies !path_lt(#[trigger] q[j], #[trigger] q[i]) by {
            if j < s.len() {
                assert(q[i] == s[i] && q[j] == s[j]);
            } else {
                assert(q[j] == x);
                assert(q[i] == s[i]);
                if i < s.len() - 1 {
                    let y = s[i];
                    assert(!path_lt(s[s.len() - 1], s[i]));
                    crate::order::lemma_lex_total(last, y, true);
                    if path_lt(x, y) {
                        if last == y {
                        } else {
                            crate::order::lemma_lex_transitive(x, y, last, true);
                        }
                    }
                }
            }
        }
    }
}

proof fn lemma_sort_paths(ps: Seq<Seq<char>>)
    ensures
        paths_sorted(sort_paths(ps)),
        forall|y: Seq<char>| #[trigger] sort_paths(ps).contains(y) <==> ps.contains(y),
    decreases ps.len(),
{
    if ps.len() == 0 {
    } else {
        let t = ps.drop_last();
        lemma_sort_paths(t);
        lemma_insert_path_sorted(sort_paths(t), ps.last());
        lemma_insert_path_elements(sort_paths(t), ps.last());
        assert forall|y: Seq<char>| #[trigger] sort_paths(ps).contains(y) <==> ps.contains(y) by {
            if ps.contains(y) {
                let i = choose|i: int| 0 <= i < ps.len() && ps[i] == y;
                if i < ps.len() - 1 {
                    assert(t[i] == y);
                }
            }
            if t.contains(y) {
                let i = choose|i: int| 0 <= i < t.len() && t[i] == y;
                assert(ps[i] == y);
            }
        }
    }
}

proof fn lemma_not_ignored(c: crate::config::ConfigView, ps: Seq<Seq<char>>)
    ensures
        forall|y: Seq<char>| #[trigger] not_ignored(c, ps).contains(y) <==> (ps.contains(y)
            && !crate::config::spec_matches_patterns(y, c.global_ignores)),
    decreases ps.len(),
{
    if ps.len() > 0 {
        let t = ps.drop_last();
        lemma_not_ignored(c, t);
        let r = not_ignored(c, t);
        assert forall|y: Seq<char>| #[trigger] not_ignored(c, ps).contains(y) <==> (ps.contains(y)
            && !crate::config::spec_matches_patterns(y, c.global_ignores)) by {
            if ps.contains(y) {
                let i = choose|i: int| 0 <= i < ps.len() && ps[i] == y;
                if i < ps.len() - 1 {
                    assert(t[i] == y);
                }
            }
            if t.contains(y) {
                let i = choose|i: int| 0 <= i < t.len() && t[i] == y;
                assert(ps[i] == y);
            }
            if !crate::config::spec_matches_patterns(ps.last(), c.global_ignores) {
                let q = r.push(ps.last());
                if q.contains(y) {
                    let i = choose|i: int| 0 <= i < q.len() && q[i] == y;
                    if i < r.len() {
                        assert(r[i] == y);
                    }
                }
                if r.contains(y) {
                    let i = choose|i: int| 0 <= i < r.len() && r[i] == y;
                    assert(q[i] == y);
                }
                assert(q[r.len() as int] == ps.last());
            }
        }
    }
}

/// A scan keeps the walked files that the global ignores do not leave out,
/// and no other, in path order.
pub proof fn lemma_scanned_files(c: crate::config::ConfigView, walked: Seq<Seq<char>>)
    ensures
        paths_sorted(sort_paths(not_ignored(c, walked))),
        forall|y: Seq<char>| #[trigger] sort_paths(not_ignored(c, walked)).contains(y) <==> (walked.contains(y)
            && !crate::config::spec_matches_patterns(y, c.global_ignores)),
{
    lemma_not_ignored(c, walked);
    lemma_sort_paths(not_ignored(c, walked));
}

} // verus!
