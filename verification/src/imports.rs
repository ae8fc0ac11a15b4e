//! The import graph: which source files import which, as written and as
//! resolved. Reading files, parsing them and resolving specifiers is the
//! caller's part; this module picks what is parsed and assembles the graph.
use vstd::prelude::*;
use crate::order::{assoc_insert, assoc_put, lemma_assoc_put_pairs};
use crate::path_utils::{lemma_last_dot, last_dot, last_dot_index, path_file_name, spec_file_name, spec_parent, parent};
use crate::text::{chars_of, string_of_range};
use crate::fsd::{IndexView, SourceLocation};

verus! {

/// One import of a source file: the specifier as written, and the source file
/// it resolves to, if it resolves to one.
#[derive(Debug, Clone, PartialEq, Eq)]
pub struct ImportRecord {
    pub specifier: String,
    pub resolved: Option<String>,
}

pub struct ImportRecordView {
    pub specifier: Seq<char>,
    pub resolved: Option<Seq<char>>,
}

impl DeepView for ImportRecord {
    type V = ImportRecordView;

    open spec fn deep_view(&self) -> ImportRecordView {
        ImportRecordView { specifier: self.specifier@, resolved: self.resolved.deep_view() }
    }
}

impl ImportRecord {
    pub fn duplicate(&self) -> (r: ImportRecord)
        ensures
            r.deep_view() == self.deep_view(),
    {
        ImportRecord {
            specifier: self.specifier.clone(),
            resolved: match &self.resolved {
                Some(p) => Some(p.clone()),
                None => None,
            },
        }
    }
}

/// The imports of each source file, keyed by the file's path in path order.
#[derive(Debug)]
pub struct ImportGraph {
    pub imports: Vec<(String, Vec<ImportRecord>)>,
}

pub type ImportGraphView = Seq<(Seq<char>, Seq<ImportRecordView>)>;

impl DeepView for ImportGraph {
    type V = ImportGraphView;

    open spec fn deep_view(&self) -> ImportGraphView {
        self.imports.deep_view()
    }
}

/// `Path::extension` of a file name: the text after its last dot, unless the
/// only dot leads the name.
pub open spec fn spec_name_extension(n: Seq<char>) -> Option<Seq<char>> {
    if last_dot(n) <= 0 {
        None
    } else {
        Some(n.skip(last_dot(n) + 1))
    }
}

/// `Path::extension`.
pub open spec fn spec_extension(p: Seq<char>) -> Option<Seq<char>> {
    match spec_file_name(p) {
        Some(n) => spec_name_extension(n),
        None => None,
    }
}

/// The extensions of the files that are parsed for imports.
pub open spec fn source_extensions() -> Seq<Seq<char>> {
    seq![
        "js"@, "jsx"@, "ts"@, "tsx"@, "mjs"@, "cjs"@, "mts"@, "cts"@, "vue"@, "svelte"@, "astro"@,
    ]
}

pub open spec fn spec_is_source_path(p: Seq<char>) -> bool {
    match spec_extension(p) {
        Some(e) => source_extensions().contains(e),
        None => false,
    }
}

/// The extension of `path`, if it has one.
pub fn extension(path: &str) -> (r: Option<String>)
    ensures
        r.deep_view() == spec_extension(path@),
{
    match path_file_name(path) {
        None => None,
        Some(n) => {
            let cs = chars_of(n.as_str());
            proof {
                lemma_last_dot(cs@);
            }
            match last_dot_index(&cs) {
                None => None,
                Some(k) => {
                    if k == 0 {
                        None
                    } else {
                        assert(k < cs.len());
                        let e = string_of_range(&cs, k + 1, cs.len());
                        assert(e@ =~= n@.skip(last_dot(n@) + 1));
                        Some(e)
                    }
                },
            }
        },
    }
}

fn source_extension_list() -> (r: Vec<&'static str>)
    ensures
        r@.map_values(|s: &'static str| s@) == source_extensions(),
{
    let r = vec!["js", "jsx", "ts", "tsx", "mjs", "cjs", "mts", "cts", "vue", "svelte", "astro"];
    assert(r@.map_values(|s: &'static str| s@) =~= source_extensions());
    r
}

/// Whether `path` names a file that is parsed for imports.
pub fn is_source_path(path: &str) -> (r: bool)
    ensures
        r == spec_is_source_path(path@),
{
    match extension(path) {
        None => false,
        Some(e) => {
            let list = source_extension_list();
            let ghost names = list@.map_values(|s: &'static str| s@);
            let mut i: usize = 0;
            while i < list.len()
                invariant
                    i <= list@.len(),
                    names == list@.map_values(|s: &'static str| s@),
                    names == source_extensions(),
                    spec_extension(path@) == Some(e@),
                    forall|j: int| 0 <= j < i ==> names[j] != e@,
                decreases list.len() - i,
            {
                if crate::order::text_eq(e.as_str(), list[i]) {
                    assert(names[i as int] == e@);
                    assert(source_extensions().contains(e@));
                    return true;
                }
                i = i + 1;
            }
            false
        },
    }
}


/// Whether `pat` occurs in `s` at position `i`.
pub open spec fn occurs_at(s: Seq<char>, pat: Seq<char>, i: int) -> bool {
    0 <= i && i + pat.len() <= s.len() && s.subrange(i, i + pat.len()) == pat
}

/// The first position at or after `i` where `pat` occurs in `s`: what
/// `str::find` gives on the text from `i` on, shifted by `i`.
pub open spec fn find_from(s: Seq<char>, pat: Seq<char>, i: int) -> Option<int>
    decreases s.len() + 1 - i,
{
    if i < 0 || i + pat.len() > s.len() {
        None
    } else if occurs_at(s, pat, i) {
        Some(i)
    } else {
        find_from(s, pat, i + 1)
    }
}

pub proof fn lemma_find_from(s: Seq<char>, pat: Seq<char>, i: int)
    ensures
        match find_from(s, pat, i) {
            Some(k) => i <= k && occurs_at(s, pat, k),
            None => true,
        },
    decreases s.len() + 1 - i,
{
    if i < 0 || i + pat.len() > s.len() {
    } else if occurs_at(s, pat, i) {
    } else {
        lemma_find_from(s, pat, i + 1);
    }
}

/// Whether `pat` occurs in `cs` at `i`.
fn occurs_at_exec(cs: &Vec<char>, pat: &Vec<char>, i: usize) -> (r: bool)
    ensures
        r == occurs_at(cs@, pat@, i as int),
{
    if pat.len() > cs.len() || i > cs.len() - pat.len() {
        return false;
    }
    let mut j: usize = 0;
    while j < pat.len()
        invariant
            j <= pat@.len(),
            i + pat@.len() <= cs.len(),
            forall|m: int| 0 <= m < j ==> cs@[i + m] == pat@[m],
        decreases pat.len() - j,
    {
        if cs[i + j] != pat[j] {
            assert(cs@.subrange(i as int, i + pat@.len())[j as int] != pat@[j as int]);
            return false;
        }
        j = j + 1;
    }
    assert(cs@.subrange(i as int, i + pat@.len()) =~= pat@);
    true
}

/// `find_from` on character vectors.
pub fn find_chars(cs: &Vec<char>, pat: &Vec<char>, from: usize) -> (r: Option<usize>)
    ensures
        match r {
            Some(k) => find_from(cs@, pat@, from as int) == Some(k as int),
            None => find_from(cs@, pat@, from as int) is None,
        },
{
    if pat.len() > cs.len() {
        return None;
    }
    if pat.len() == 0 {
        if from <= cs.len() {
            assert(cs@.subrange(from as int, from as int) =~= pat@);
            return Some(from);
        }
        return None;
    }
    let mut i = from;
    while i <= cs.len() - pat.len()
        invariant
            from <= i,
            1 <= pat@.len() <= cs.len(),
            find_from(cs@, pat@, from as int) == find_from(cs@, pat@, i as int),
        decreases cs.len() - i,
    {
        if occurs_at_exec(cs, pat, i) {
            return Some(i);
        }
        i = i + 1;
    }
    None
}

pub open spec fn script_open() -> Seq<char> {
    seq!['<', 's', 'c', 'r', 'i', 'p', 't']
}

pub open spec fn script_close() -> Seq<char> {
    seq!['<', '/', 's', 'c', 'r', 'i', 'p', 't', '>']
}

/// The bodies of the `<script ...>` elements of `s` from position `i` on:
/// each is the text between the first `>` after `<script` and the next
/// `</script>`; an element left open ends the list.
pub open spec fn script_fragments(s: Seq<char>, i: int) -> Seq<Seq<char>>
    decreases s.len() + 1 - i,
{
    if i < 0 || i > s.len() {
        Seq::empty()
    } else {
        match find_from(s, script_open(), i) {
            None => Seq::empty(),
            Some(start) => match find_from(s, seq!['>'], start) {
                None => Seq::empty(),
                Some(open_end) => match find_from(s, script_close(), open_end + 1) {
                    None => Seq::empty(),
                    Some(close) => {
                        proof {
                            lemma_find_from(s, script_open(), i);
                            lemma_find_from(s, seq!['>'], start);
                            lemma_find_from(s, script_close(), open_end + 1);
                        }
                        seq![s.subrange(open_end + 1, close)] + script_fragments(s, close + 9)
                    },
                },
            },
        }
    }
}

fn script_open_chars() -> (r: Vec<char>)
    ensures
        r@ == script_open(),
{
    let r = vec!['<', 's', 'c', 'r', 'i', 'p', 't'];
    assert(r@ =~= script_open());
    r
}

fn script_close_chars() -> (r: Vec<char>)
    ensures
        r@ == script_close(),
{
    let r = vec!['<', '/', 's', 'c', 'r', 'i', 'p', 't', '>'];
    assert(r@ =~= script_close());
    r
}

/// The script bodies of a Vue or Svelte component (see `script_fragments`).
pub fn extract_script_tags(source: &str) -> (r: Vec<String>)
    ensures
        r.deep_view() == script_fragments(source@, 0),
{
    let cs = chars_of(source);
    let open = script_open_chars();
    let close = script_close_chars();
    let gt = vec!['>'];
    assert(gt@ =~= seq!['>']);
    let mut r: Vec<String> = Vec::new();
    let mut i: usize = 0;
    let ghost s = cs@;
    assert(r.deep_view() =~= Seq::<Seq<char>>::empty());
    loop
        invariant
            s == cs@,
            s == source@,
            open@ == script_open(),
            close@ == script_close(),
            gt@ == seq!['>'],
            i <= s.len(),
            s.len() == cs.len(),
            r.deep_view() + script_fragments(s, i as int) == script_fragments(s, 0),
        ensures
            r.deep_view() == script_fragments(s, 0),
        decreases s.len() + 1 - i,
    {
        proof {
            lemma_find_from(s, script_open(), i as int);
        }
        let start = match find_chars(&cs, &open, i) {
            None => {
                assert(r.deep_view() + Seq::<Seq<char>>::empty() =~= r.deep_view());
                break;
            },
            Some(k) => k,
        };
        proof {
            lemma_find_from(s, seq!['>'], start as int);
        }
        let open_end = match find_chars(&cs, &gt, start) {
            None => {
                assert(r.deep_view() + Seq::<Seq<char>>::empty() =~= r.deep_view());
                break;
            },
            Some(k) => k,
        };
        proof {
            lemma_find_from(s, script_close(), open_end + 1);
        }
        let close_at = match find_chars(&cs, &close, open_end + 1) {
            None => {
                assert(r.deep_view() + Seq::<Seq<char>>::empty() =~= r.deep_view());
                break;
            },
            Some(k) => k,
        };
        let body = string_of_range(&cs, open_end + 1, close_at);
        let ghost before = r.deep_view();
        r.push(body);
        assert(r.deep_view() =~= before.push(s.subrange(open_end + 1, close_at as int)));
        assert(script_fragments(s, i as int) == seq![s.subrange(open_end + 1, close_at as int)]
            + script_fragments(s, close_at + 9));
        assert(r.deep_view() + script_fragments(s, close_at + 9) =~= before + script_fragments(
            s,
            i as int,
        ));
        i = close_at + 9;
    }
    r
}

pub open spec fn is_frontmatter_lead(c: char) -> bool {
    c == '\u{feff}' || c == ' ' || c == '\t' || c == '\r' || c == '\n'
}

/// The first position at or after `i` that does not hold a leading blank.
pub open spec fn lead_end(s: Seq<char>, i: int) -> int
    decreases s.len() - i,
{
    if 0 <= i < s.len() && is_frontmatter_lead(s[i]) {
        lead_end(s, i + 1)
    } else {
        i
    }
}

pub open spec fn frontmatter_fence() -> Seq<char> {
    seq!['-', '-', '-']
}

pub open spec fn frontmatter_end() -> Seq<char> {
    seq!['\n', '-', '-', '-']
}

/// Where the body of an Astro frontmatter that opens at `l` starts: after
/// the `---` and one line break.
pub open spec fn frontmatter_body(s: Seq<char>, l: int) -> int {
    if occurs_at(s, seq!['\r', '\n'], l + 3) {
        l + 5
    } else if occurs_at(s, seq!['\n'], l + 3) {
        l + 4
    } else {
        l + 3
    }
}

/// The script of an Astro component: after leading blanks, the text between
/// an opening `---` line and the next line that starts with `---`.
pub open spec fn astro_fragments(s: Seq<char>) -> Seq<Seq<char>> {
    let l = lead_end(s, 0);
    if !occurs_at(s, frontmatter_fence(), l) {
        Seq::empty()
    } else {
        let b = frontmatter_body(s, l);
        match find_from(s, frontmatter_end(), b) {
            Some(e) => seq![s.subrange(b, e)],
            None => Seq::empty(),
        }
    }
}

fn is_lead_char(c: char) -> (r: bool)
    ensures
        r == is_frontmatter_lead(c),
{
    c == '\u{feff}' || c == ' ' || c == '\t' || c == '\r' || c == '\n'
}

/// The frontmatter script of an Astro component (see `astro_fragments`).
pub fn extract_astro_frontmatter(source: &str) -> (r: Vec<String>)
    ensures
        r.deep_view() == astro_fragments(source@),
{
    let cs = chars_of(source);
    let ghost s = cs@;
    let mut l: usize = 0;
    while l < cs.len() && is_lead_char(cs[l])
        invariant
            l <= s.len(),
            s == cs@,
            lead_end(s, 0) == lead_end(s, l as int),
        decreases cs.len() - l,
    {
        l = l + 1;
    }
    let fence = vec!['-', '-', '-'];
    assert(fence@ =~= frontmatter_fence());
    let mut r: Vec<String> = Vec::new();
    if !occurs_at_exec(&cs, &fence, l) {
        assert(r.deep_view() =~= astro_fragments(s));
        return r;
    }
    let crlf = vec!['\r', '\n'];
    let lf = vec!['\n'];
    assert(crlf@ =~= seq!['\r', '\n']);
    assert(lf@ =~= seq!['\n']);
    let b = if occurs_at_exec(&cs, &crlf, l + 3) {
        l + 5
    } else if occurs_at_exec(&cs, &lf, l + 3) {
        l + 4
    } else {
        l + 3
    };
    let end = vec!['\n', '-', '-', '-'];
    assert(end@ =~= frontmatter_end());
    proof {
        lemma_find_from(s, frontmatter_end(), b as int);
    }
    match find_chars(&cs, &end, b) {
        Some(e) => {
            r.push(string_of_range(&cs, b, e));
            assert(r.deep_view() =~= astro_fragments(s));
        },
        None => {
            assert(r.deep_view() =~= astro_fragments(s));
        },
    }
    r
}


/// Whether a file with this path is a component whose scripts are parsed as
/// TypeScript with JSX: a Vue, Svelte or Astro file.
pub open spec fn spec_is_component(path: Seq<char>) -> bool {
    match spec_extension(path) {
        Some(e) => e == "vue"@ || e == "svelte"@ || e == "astro"@,
        None => false,
    }
}

/// The texts of a source file that are parsed for imports: the script
/// elements of a Vue or Svelte component, the frontmatter of an Astro
/// component, and the whole text of any other file.
pub open spec fn spec_dependency_fragments(path: Seq<char>, source: Seq<char>) -> Seq<Seq<char>> {
    match spec_extension(path) {
        Some(e) => if e == "vue"@ || e == "svelte"@ {
            script_fragments(source, 0)
        } else if e == "astro"@ {
            astro_fragments(source)
        } else {
            seq![source]
        },
        None => seq![source],
    }
}

pub fn is_component(path: &str) -> (r: bool)
    ensures
        r == spec_is_component(path@),
{
    match extension(path) {
        Some(e) => crate::order::text_eq(e.as_str(), "vue") || crate::order::text_eq(e.as_str(), "svelte")
            || crate::order::text_eq(e.as_str(), "astro"),
        None => false,
    }
}

pub fn dependency_fragments(path: &str, source: &str) -> (r: Vec<String>)
    ensures
        r.deep_view() == spec_dependency_fragments(path@, source@),
{
    match extension(path) {
        Some(e) => {
            if crate::order::text_eq(e.as_str(), "vue") || crate::order::text_eq(e.as_str(), "svelte") {
                extract_script_tags(source)
            } else if crate::order::text_eq(e.as_str(), "astro") {
                extract_astro_frontmatter(source)
            } else {
                let r = vec![source.to_owned()];
                assert(r.deep_view() =~= seq![source@]);
                r
            }
        },
        None => {
            let r = vec![source.to_owned()];
            assert(r.deep_view() =~= seq![source@]);
            r
        },
    }
}

/// The imports of a file from the imports found in each of its fragments:
/// fragment by fragment, the dynamic `import(..)` calls first, then the
/// static imports and `require` calls.
pub open spec fn merged_dependencies(found: Seq<(Seq<Seq<char>>, Seq<Seq<char>>)>) -> Seq<Seq<char>>
    decreases found.len(),
{
    if found.len() == 0 {
        Seq::empty()
    } else {
        merged_dependencies(found.drop_last()) + found.last().0 + found.last().1
    }
}

fn append_texts(r: &mut Vec<String>, v: &Vec<String>)
    ensures
        final(r).deep_view() == old(r).deep_view() + v.deep_view(),
{
    let ghost start = r.deep_view();
    let mut i: usize = 0;
    while i < v.len()
        invariant
            i <= v@.len(),
            r.deep_view() == start + v.deep_view().take(i as int),
        decreases v.len() - i,
    {
        let ghost before = r.deep_view();
        r.push(v[i].clone());
        assert(r.deep_view() =~= before.push(v@[i as int]@));
        assert(v.deep_view().take(i + 1) =~= v.deep_view().take(i as int).push(v@[i as int]@));
        assert(r.deep_view() =~= start + v.deep_view().take(i + 1));
        i = i + 1;
    }
    assert(v.deep_view().take(v@.len() as int) =~= v.deep_view());
}

pub fn merge_dependencies(found: &Vec<(Vec<String>, Vec<String>)>) -> (r: Vec<String>)
    ensures
        r.deep_view() == merged_dependencies(found.deep_view()),
{
    let ghost fv = found.deep_view();
    let mut r: Vec<String> = Vec::new();
    assert(r.deep_view() =~= merged_dependencies(fv.take(0)));
    let mut i: usize = 0;
    while i < found.len()
        invariant
            i <= found@.len(),
            fv == found.deep_view(),
            r.deep_view() == merged_dependencies(fv.take(i as int)),
        decreases found.len() - i,
    {
        assert(fv.take(i + 1).drop_last() =~= fv.take(i as int));
        assert(fv.take(i + 1).last() == found@[i as int].deep_view());
        append_texts(&mut r, &found[i].0);
        append_texts(&mut r, &found[i].1);
        i = i + 1;
    }
    assert(fv.take(fv.len() as int) =~= fv);
    r
}

/// The paths of the index that name source files, in path order.
pub open spec fn spec_source_paths(index: IndexView) -> Seq<Seq<char>>
    decreases index.len(),
{
    if index.len() == 0 {
        Seq::empty()
    } else if spec_is_source_path(index.last().0) {
        spec_source_paths(index.drop_last()).push(index.last().0)
    } else {
        spec_source_paths(index.drop_last())
    }
}

pub fn source_paths(index: &Vec<(String, SourceLocation)>) -> (r: Vec<String>)
    ensures
        r.deep_view() == spec_source_paths(index.deep_view()),
{
    let ghost iv = index.deep_view();
    let mut r: Vec<String> = Vec::new();
    assert(r.deep_view() =~= spec_source_paths(iv.take(0)));
    let mut i: usize = 0;
    while i < index.len()
        invariant
            i <= index@.len(),
            iv == index.deep_view(),
            r.deep_view() == spec_source_paths(iv.take(i as int)),
        decreases index.len() - i,
    {
        assert(iv.take(i + 1).drop_last() =~= iv.take(i as int));
        assert(iv.take(i + 1).last().0 == index@[i as int].0@);
        if is_source_path(index[i].0.as_str()) {
            let ghost before = r.deep_view();
            r.push(index[i].0.clone());
            assert(r.deep_view() =~= before.push(index@[i as int].0@));
        }
        i = i + 1;
    }
    assert(iv.take(iv.len() as int) =~= iv);
    r
}

/// The folder against which the imports of `importer` are resolved: its
/// parent, or the root when it has none.
pub open spec fn spec_importer_directory(importer: Seq<char>, root: Seq<char>) -> Seq<char> {
    match spec_parent(importer) {
        Some(d) => d,
        None => root,
    }
}

pub fn importer_directory(importer: &str, root: &str) -> (r: String)
    ensures
        r@ == spec_importer_directory(importer@, root@),
{
    match parent(importer) {
        Some(d) => d,
        None => root.to_owned(),
    }
}

/// What a resolution contributes to the graph: only a source file is kept.
pub open spec fn kept_resolution(resolved: Option<Seq<char>>) -> Option<Seq<char>> {
    match resolved {
        Some(p) => if spec_is_source_path(p) {
            Some(p)
        } else {
            None
        },
        None => None,
    }
}

pub open spec fn record_of(r: (Seq<char>, Option<Seq<char>>)) -> ImportRecordView {
    ImportRecordView { specifier: r.0, resolved: kept_resolution(r.1) }
}

pub open spec fn records_of(rs: Seq<(Seq<char>, Option<Seq<char>>)>) -> Seq<ImportRecordView> {
    rs.map_values(|r: (Seq<char>, Option<Seq<char>>)| record_of(r))
}

/// The graph of the resolved imports of each importer; a later entry for the
/// same importer replaces an earlier one.
pub open spec fn graph_of(entries: Seq<(Seq<char>, Seq<(Seq<char>, Option<Seq<char>>)>)>) -> ImportGraphView
    decreases entries.len(),
{
    if entries.len() == 0 {
        Seq::empty()
    } else {
        assoc_put(graph_of(entries.drop_last()), entries.last().0, records_of(entries.last().1), true)
    }
}

fn records_from(rs: &Vec<(String, Option<String>)>) -> (r: Vec<ImportRecord>)
    ensures
        r.deep_view() == records_of(rs.deep_view()),
{
    let ghost rv = rs.deep_view();
    let mut r: Vec<ImportRecord> = Vec::new();
    let mut i: usize = 0;
    while i < rs.len()
        invariant
            i <= rs@.len(),
            rv == rs.deep_view(),
            r.deep_view() =~= records_of(rv.take(i as int)),
        decreases rs.len() - i,
    {
        let resolved = match &rs[i].1 {
            Some(p) => if is_source_path(p.as_str()) {
                Some(p.clone())
            } else {
                None
            },
            None => None,
        };
        let ghost before = r.deep_view();
        r.push(ImportRecord { specifier: rs[i].0.clone(), resolved });
        assert(rv[i as int] == rs@[i as int].deep_view());
        assert(r.deep_view() =~= before.push(record_of(rv[i as int])));
        assert(records_of(rv.take(i + 1)) =~= records_of(rv.take(i as int)).push(record_of(rv[i as int])));
        i = i + 1;
    }
    assert(rv.take(rv.len() as int) =~= rv);
    r
}

impl ImportGraph {
    /// The graph of `resolutions`: for each importer, each specifier with
    /// the path it resolved to, of which only source files are kept.
    pub fn build(resolutions: &Vec<(String, Vec<(String, Option<String>)>)>) -> (r: ImportGraph)
        ensures
            r.deep_view() == graph_of(resolutions.deep_view()),
    {
        let ghost ev = resolutions.deep_view();
        let mut imports: Vec<(String, Vec<ImportRecord>)> = Vec::new();
        assert(imports.deep_view() =~= graph_of(ev.take(0)));
        let mut i: usize = 0;
        while i < resolutions.len()
            invariant
                i <= resolutions@.len(),
                ev == resolutions.deep_view(),
                imports.deep_view() == graph_of(ev.take(i as int)),
            decreases resolutions.len() - i,
        {
            assert(ev.take(i + 1).drop_last() =~= ev.take(i as int));
            assert(ev.take(i + 1).last() == resolutions@[i as int].deep_view());
            let records = records_from(&resolutions[i].1);
            assoc_insert(&mut imports, resolutions[i].0.clone(), records, true);
            i = i + 1;
        }
        assert(ev.take(ev.len() as int) =~= ev);
        ImportGraph { imports }
    }
}


/// Whether an import records no target, or a source file.
pub open spec fn targets_source(r: ImportRecordView) -> bool {
    match r.resolved {
        Some(p) => spec_is_source_path(p),
        None => true,
    }
}

/// The graph resolves imports to source files only: an import that
/// resolves to anything else (an image, a stylesheet) records no target.
pub proof fn lemma_graph_targets_are_sources(entries: Seq<(Seq<char>, Seq<(Seq<char>, Option<Seq<char>>)>)>)
    ensures
        forall|i: int, j: int|
            0 <= i < graph_of(entries).len() && 0 <= j < graph_of(entries)[i].1.len() ==> targets_source(
                #[trigger] graph_of(entries)[i].1[j],
            ),
    decreases entries.len(),
{
    if entries.len() > 0 {
        let t = entries.drop_last();
        lemma_graph_targets_are_sources(t);
        let m = graph_of(t);
        let k = entries.last().0;
        let v = records_of(entries.last().1);
        lemma_assoc_put_pairs(m, k, v, true);
        let g = graph_of(entries);
        assert forall|i: int, j: int|
            0 <= i < g.len() && 0 <= j < g[i].1.len() implies targets_source(#[trigger] g[i].1[j]) by {
            assert(g.contains(g[i]));
            if g[i] == (k, v) {
                assert(v[j] == record_of(entries.last().1[j]));
            } else {
                assert(m.contains(g[i]));
                let a = choose|a: int| 0 <= a < m.len() && m[a] == g[i];
                assert(m[a].1[j] == g[i].1[j]);
            }
        }
    }
}

} // verus!
