//! Paths as `/`-separated character sequences.
//!
//! The library keeps paths as strings in the form a directory walk produces:
//! absolute, separated by `/`, with no empty, `.` or `..` components and no
//! trailing separator. On such paths the functions below agree with the
//! component-wise operations of `std::path::Path`.
use vstd::prelude::*;
use crate::text::{chars_of, push_char, push_text, string_of_range};

verus! {

pub open spec fn has_prefix(p: Seq<char>, q: Seq<char>) -> bool {
    p.len() >= q.len() && p.take(q.len() as int) == q
}

/// The index of the last `/` in `p`, or -1 when there is none.
pub open spec fn last_slash(p: Seq<char>) -> int
    decreases p.len(),
{
    if p.len() == 0 {
        -1
    } else if p.last() == '/' {
        p.len() - 1
    } else {
        last_slash(p.drop_last())
    }
}

pub proof fn lemma_last_slash(p: Seq<char>)
    ensures
        -1 <= last_slash(p) < p.len(),
        last_slash(p) >= 0 ==> p[last_slash(p)] == '/',
        forall|j: int| last_slash(p) < j < p.len() ==> p[j] != '/',
    decreases p.len(),
{
    if p.len() > 0 && p.last() != '/' {
        lemma_last_slash(p.drop_last());
        assert forall|j: int| last_slash(p) < j < p.len() implies p[j] != '/' by {
            if j < p.len() - 1 {
                assert(p[j] == p.drop_last()[j]);
            }
        }
    }
}

pub proof fn lemma_last_dot(n: Seq<char>)
    ensures
        -1 <= last_dot(n) < n.len(),
    decreases n.len(),
{
    if n.len() > 0 && n.last() != '.' {
        lemma_last_dot(n.drop_last());
    }
}

/// `Path::parent`: `"/a/b"` has parent `"/a"`, `"/a"` has `"/"`, `"a"` has `""`,
/// and `"/"` and `""` have none.
pub open spec fn spec_parent(p: Seq<char>) -> Option<Seq<char>> {
    let k = last_slash(p);
    if k < 0 {
        if p.len() > 0 { Some(Seq::empty()) } else { None }
    } else if k == 0 {
        if p.len() > 1 { Some(seq!['/']) } else { None }
    } else {
        Some(p.take(k))
    }
}

/// The last component of `p`: everything after its last `/`.
pub open spec fn spec_last_component(p: Seq<char>) -> Seq<char> {
    p.skip(last_slash(p) + 1)
}

/// `Path::file_name`: the last component, unless it is empty or `..`.
pub open spec fn spec_file_name(p: Seq<char>) -> Option<Seq<char>> {
    let n = spec_last_component(p);
    if n.len() == 0 || n == seq!['.', '.'] {
        None
    } else {
        Some(n)
    }
}

/// The index of the last `.` in `n`, or -1.
pub open spec fn last_dot(n: Seq<char>) -> int
    decreases n.len(),
{
    if n.len() == 0 {
        -1
    } else if n.last() == '.' {
        n.len() - 1
    } else {
        last_dot(n.drop_last())
    }
}

/// `Path::file_stem` of a file name: the name without its last extension; a
/// name whose only dot leads (`.env`), and `..`, keep their whole text.
pub open spec fn spec_stem(n: Seq<char>) -> Seq<char> {
    if n == seq!['.', '.'] || last_dot(n) <= 0 {
        n
    } else {
        n.take(last_dot(n))
    }
}

/// `Path::file_stem`.
pub open spec fn spec_file_stem(p: Seq<char>) -> Option<Seq<char>> {
    match spec_file_name(p) {
        Some(n) => Some(spec_stem(n)),
        None => None,
    }
}

/// `Path::join` of a relative name: the two joined by one `/`.
pub open spec fn spec_join(base: Seq<char>, name: Seq<char>) -> Seq<char> {
    base + seq!['/'] + name
}

/// `s` without trailing `/` characters.
pub open spec fn trim_trailing_slashes(s: Seq<char>) -> Seq<char>
    decreases s.len(),
{
    if s.len() > 0 && s.last() == '/' {
        trim_trailing_slashes(s.drop_last())
    } else {
        s
    }
}

/// `s` without leading `/` characters.
pub open spec fn trim_leading_slashes(s: Seq<char>) -> Seq<char>
    decreases s.len(),
{
    if s.len() > 0 && s[0] == '/' {
        trim_leading_slashes(s.drop_first())
    } else {
        s
    }
}

/// `Path::strip_prefix`: the part of `p` below `base`, if `p` lies at or
/// below it, without the separators at either end of that part (a path's
/// components, like `Path`'s, do not keep them). Trailing separators of
/// `base` do not count; a base made only of separators is the file-system
/// root, below which lies every path that starts with `/`.
pub open spec fn spec_strip_prefix(p: Seq<char>, base: Seq<char>) -> Option<Seq<char>> {
    let b = trim_trailing_slashes(base);
    if base.len() > 0 && b.len() == 0 {
        if p.len() > 0 && p[0] == '/' {
            Some(trim_leading_slashes(trim_trailing_slashes(p)))
        } else {
            None
        }
    } else if p == b {
        Some(Seq::empty())
    } else if p.len() > b.len() && p.take(b.len() as int) == b && p[b.len() as int] == '/' {
        Some(trim_leading_slashes(trim_trailing_slashes(p.skip(b.len() as int + 1))))
    } else {
        None
    }
}

/// `Path::starts_with`: `p` lies at or below `base`.
pub open spec fn spec_starts_with(p: Seq<char>, base: Seq<char>) -> bool {
    spec_strip_prefix(p, base) is Some
}

/// Every `\` replaced by `/`.
pub open spec fn slashes_forward(s: Seq<char>) -> Seq<char> {
    s.map_values(|c: char| if c == '\\' { '/' } else { c })
}

/// The index of the last `/` in a character vector.
pub fn last_slash_index(cs: &Vec<char>) -> (r: Option<usize>)
    ensures
        match r {
            Some(i) => i == last_slash(cs@),
            None => last_slash(cs@) == -1,
        },
{
    let mut i = cs.len();
    assert(cs@.take(i as int) =~= cs@);
    while i > 0 && cs[i - 1] != '/'
        invariant
            i <= cs@.len(),
            last_slash(cs@) == last_slash(cs@.take(i as int)),
        decreases i,
    {
        assert(cs@.take(i as int).drop_last() =~= cs@.take(i - 1));
        i = i - 1;
    }
    if i == 0 {
        assert(cs@.take(0).len() == 0);
        None
    } else {
        Some(i - 1)
    }
}

/// The index of the last `.` in a character vector.
pub fn last_dot_index(cs: &Vec<char>) -> (r: Option<usize>)
    ensures
        match r {
            Some(i) => i == last_dot(cs@),
            None => last_dot(cs@) == -1,
        },
{
    let mut i = cs.len();
    assert(cs@.take(i as int) =~= cs@);
    while i > 0 && cs[i - 1] != '.'
        invariant
            i <= cs@.len(),
            last_dot(cs@) == last_dot(cs@.take(i as int)),
        decreases i,
    {
        assert(cs@.take(i as int).drop_last() =~= cs@.take(i - 1));
        i = i - 1;
    }
    if i == 0 {
        assert(cs@.take(0).len() == 0);
        None
    } else {
        Some(i - 1)
    }
}

/// `Path::parent` (see `spec_parent`).
pub fn parent(p: &str) -> (r: Option<String>)
    ensures
        r.deep_view() == spec_parent(p@),
{
    let cs = chars_of(p);
    proof {
        lemma_last_slash(cs@);
    }
    match last_slash_index(&cs) {
        None => {
            if cs.len() > 0 {
                Some(String::new())
            } else {
                None
            }
        },
        Some(k) => {
            if k == 0 {
                if cs.len() > 1 {
                    let mut s = String::new();
                    push_char(&mut s, '/');
                    Some(s)
                } else {
                    None
                }
            } else {
                let s = string_of_range(&cs, 0, k);
                assert(s@ == cs@.take(k as int));
                Some(s)
            }
        },
    }
}

/// The last component of `p` (see `spec_last_component`).
pub fn last_component(p: &str) -> (r: String)
    ensures
        r@ == spec_last_component(p@),
{
    let cs = chars_of(p);
    proof {
        lemma_last_slash(cs@);
    }
    let start = match last_slash_index(&cs) {
        None => 0,
        Some(k) => if k < cs.len() { k + 1 } else { cs.len() },
    };
    let r = string_of_range(&cs, start, cs.len());
    assert(r@ =~= cs@.skip(start as int));
    r
}

/// Whether `s` is exactly `..`.
fn is_dot_dot(s: &String) -> (r: bool)
    ensures
        r == (s@ == seq!['.', '.']),
{
    let cs = chars_of(s.as_str());
    let r = cs.len() == 2 && cs[0] == '.' && cs[1] == '.';
    if r {
        assert(cs@ =~= seq!['.', '.']);
    }
    r
}

/// `Path::file_name` (see `spec_file_name`).
pub fn path_file_name(p: &str) -> (r: Option<String>)
    ensures
        r.deep_view() == spec_file_name(p@),
{
    let n = last_component(p);
    if n.as_str().is_empty() || is_dot_dot(&n) {
        None
    } else {
        Some(n)
    }
}

/// The stem of a file name (see `spec_stem`).
pub fn stem_of(n: &String) -> (r: String)
    ensures
        r@ == spec_stem(n@),
{
    if is_dot_dot(n) {
        return n.clone();
    }
    let cs = chars_of(n.as_str());
    proof {
        lemma_last_dot(cs@);
    }
    match last_dot_index(&cs) {
        None => n.clone(),
        Some(k) => {
            if k == 0 {
                n.clone()
            } else {
                let r = string_of_range(&cs, 0, k);
                assert(r@ =~= cs@.take(k as int));
                r
            }
        },
    }
}

/// `Path::file_stem` (see `spec_file_stem`).
pub fn path_file_stem(p: &str) -> (r: Option<String>)
    ensures
        r.deep_view() == spec_file_stem(p@),
{
    match path_file_name(p) {
        Some(n) => Some(stem_of(&n)),
        None => None,
    }
}

/// `Path::join` of a relative name (see `spec_join`).
pub fn join(base: &str, name: &str) -> (r: String)
    ensures
        r@ == spec_join(base@, name@),
{
    let mut r = String::new();
    push_text(&mut r, base);
    push_char(&mut r, '/');
    push_text(&mut r, name);
    assert(r@ =~= spec_join(base@, name@));
    r
}

/// `Path::strip_prefix` (see `spec_strip_prefix`).
pub fn strip_prefix(p: &str, base: &str) -> (r: Option<String>)
    ensures
        r.deep_view() == spec_strip_prefix(p@, base@),
{
    let pc = chars_of(p);
    let full = chars_of(base);
    let bend = trailing_end(&full, 0, full.len());
    assert(full@.subrange(0, full@.len() as int) =~= base@);
    if full.len() > 0 && bend == 0 {
        assert(trim_trailing_slashes(base@).len() == 0);
        if pc.len() > 0 && pc[0] == '/' {
            assert(pc@.subrange(0, pc@.len() as int) =~= p@);
            let hi = trailing_end(&pc, 0, pc.len());
            let start = leading_start(&pc, 0, hi);
            return Some(string_of_range(&pc, start, hi));
        }
        return None;
    }
    let bc = string_of_range(&full, 0, bend);
    let bc = chars_of(bc.as_str());
    assert(bc@ == trim_trailing_slashes(base@));
    if pc.len() < bc.len() {
        assert(pc@ != bc@);
        return None;
    }
    let mut i: usize = 0;
    while i < bc.len()
        invariant
            i <= bc@.len() <= pc@.len(),
            bc@ == trim_trailing_slashes(base@),
            pc@ == p@,
            forall|j: int| 0 <= j < i ==> pc@[j] == bc@[j],
        decreases bc.len() - i,
    {
        if pc[i] != bc[i] {
            assert(pc@.take(bc@.len() as int)[i as int] != bc@[i as int]);
            assert(pc@ != bc@);
            return None;
        }
        i = i + 1;
    }
    assert(pc@.take(bc@.len() as int) =~= bc@);
    if pc.len() == bc.len() {
        assert(pc@ =~= bc@);
        Some(String::new())
    } else if pc[bc.len()] == '/' {
        let lo = bc.len() + 1;
        assert(pc@.subrange(lo as int, pc@.len() as int) =~= pc@.skip(lo as int));
        let hi = trailing_end(&pc, lo, pc.len());
        let start = leading_start(&pc, lo, hi);
        let r = string_of_range(&pc, start, hi);
        Some(r)
    } else {
        assert(pc@ != bc@);
        None
    }
}

/// The end of `cs[lo..hi]` once its trailing `/` characters are dropped.
fn trailing_end(cs: &Vec<char>, lo: usize, hi: usize) -> (e: usize)
    requires
        lo <= hi <= cs@.len(),
    ensures
        lo <= e <= hi,
        cs@.subrange(lo as int, e as int) == trim_trailing_slashes(cs@.subrange(lo as int, hi as int)),
{
    let mut e = hi;
    while e > lo && cs[e - 1] == '/'
        invariant
            lo <= e <= hi <= cs@.len(),
            trim_trailing_slashes(cs@.subrange(lo as int, e as int)) == trim_trailing_slashes(
                cs@.subrange(lo as int, hi as int),
            ),
        decreases e,
    {
        assert(cs@.subrange(lo as int, e as int).drop_last() =~= cs@.subrange(lo as int, e - 1));
        e = e - 1;
    }
    proof {
        let t = cs@.subrange(lo as int, e as int);
        if t.len() > 0 {
            assert(t.last() == cs@[e - 1]);
        }
    }
    e
}

/// The start of `cs[lo..hi]` once its leading `/` characters are dropped.
fn leading_start(cs: &Vec<char>, lo: usize, hi: usize) -> (b: usize)
    requires
        lo <= hi <= cs@.len(),
    ensures
        lo <= b <= hi,
        cs@.subrange(b as int, hi as int) == trim_leading_slashes(cs@.subrange(lo as int, hi as int)),
{
    let mut b = lo;
    while b < hi && cs[b] == '/'
        invariant
            lo <= b <= hi <= cs@.len(),
            trim_leading_slashes(cs@.subrange(b as int, hi as int)) == trim_leading_slashes(
                cs@.subrange(lo as int, hi as int),
            ),
        decreases hi - b,
    {
        assert(cs@.subrange(b as int, hi as int).drop_first() =~= cs@.subrange(b + 1, hi as int));
        b = b + 1;
    }
    proof {
        let t = cs@.subrange(b as int, hi as int);
        if t.len() > 0 {
            assert(t[0] == cs@[b as int]);
        }
    }
    b
}

/// `Path::starts_with` (see `spec_starts_with`).
pub fn starts_with(p: &str, base: &str) -> (r: bool)
    ensures
        r == spec_starts_with(p@, base@),
{
    strip_prefix(p, base).is_some()
}

/// A copy of `s` with every `\` replaced by `/`.
pub fn forward_slashes(s: &str) -> (r: String)
    ensures
        r@ == slashes_forward(s@),
{
    let cs = chars_of(s);
    let mut r = String::new();
    let mut i: usize = 0;
    while i < cs.len()
        invariant
            i <= cs@.len(),
            cs@ == s@,
            r@ == slashes_forward(cs@.take(i as int)),
        decreases cs.len() - i,
    {
        let c = if cs[i] == '\\' { '/' } else { cs[i] };
        push_char(&mut r, c);
        assert(slashes_forward(cs@.take(i + 1)) =~= slashes_forward(cs@.take(i as int)).push(c));
        i = i + 1;
    }
    assert(cs@.take(cs@.len() as int) =~= cs@);
    r
}

/// Whether `cs` begins with `pre`.
pub fn chars_have_prefix(cs: &Vec<char>, pre: &Vec<char>) -> (r: bool)
    ensures
        r == has_prefix(cs@, pre@),
{
    if cs.len() < pre.len() {
        return false;
    }
    let mut i: usize = 0;
    while i < pre.len()
        invariant
            i <= pre@.len() <= cs@.len(),
            forall|j: int| 0 <= j < i ==> cs@[j] == pre@[j],
        decreases pre.len() - i,
    {
        if cs[i] != pre[i] {
            assert(cs@.take(pre@.len() as int)[i as int] != pre@[i as int]);
            return false;
        }
        i = i + 1;
    }
    assert(cs@.take(pre@.len() as int) =~= pre@);
    true
}

/// `\\?\UNC\`
pub open spec fn verbatim_unc() -> Seq<char> {
    seq!['\\', '\\', '?', '\\', 'U', 'N', 'C', '\\']
}

/// `\\.\UNC\`
pub open spec fn device_unc() -> Seq<char> {
    seq!['\\', '\\', '.', '\\', 'U', 'N', 'C', '\\']
}

/// `\\?\`
pub open spec fn verbatim() -> Seq<char> {
    seq!['\\', '\\', '?', '\\']
}

/// `\\.\`
pub open spec fn device() -> Seq<char> {
    seq!['\\', '\\', '.', '\\']
}

/// The canonical form of a Windows path: a verbatim or device UNC prefix
/// becomes `\\`, a verbatim or device prefix before a drive letter is
/// dropped, and any other path is kept.
pub open spec fn spec_normalize_canonical_path(p: Seq<char>) -> Seq<char> {
    if has_prefix(p, verbatim_unc()) {
        seq!['\\', '\\'] + p.skip(8)
    } else if has_prefix(p, device_unc()) {
        seq!['\\', '\\'] + p.skip(8)
    } else if has_prefix(p, verbatim()) && p.len() > 5 && p[5] == ':' {
        p.skip(4)
    } else if has_prefix(p, device()) && p.len() > 5 && p[5] == ':' {
        p.skip(4)
    } else {
        p
    }
}

/// Removes the Windows verbatim and device prefixes that `canonicalize` adds,
/// so that canonical paths compare equal to the paths the user wrote.
pub fn normalize_canonical_path(path: &str) -> (r: String)
    ensures
        r@ == spec_normalize_canonical_path(path@),
{
    let cs = chars_of(path);
    let unc = vec!['\\', '\\', '?', '\\', 'U', 'N', 'C', '\\'];
    let dev_unc = vec!['\\', '\\', '.', '\\', 'U', 'N', 'C', '\\'];
    let verb = vec!['\\', '\\', '?', '\\'];
    let dev = vec!['\\', '\\', '.', '\\'];
    assert(unc@ =~= verbatim_unc());
    assert(dev_unc@ =~= device_unc());
    assert(verb@ =~= verbatim());
    assert(dev@ =~= device());
    if chars_have_prefix(&cs, &unc) || chars_have_prefix(&cs, &dev_unc) {
        let mut r = String::new();
        push_char(&mut r, '\\');
        push_char(&mut r, '\\');
        let rest = string_of_range(&cs, 8, cs.len());
        push_text(&mut r, rest.as_str());
        assert(r@ =~= seq!['\\', '\\'] + cs@.skip(8));
        r
    } else if (chars_have_prefix(&cs, &verb) || chars_have_prefix(&cs, &dev)) && cs.len() > 5
        && cs[5] == ':' {
        let r = string_of_range(&cs, 4, cs.len());
        assert(r@ =~= cs@.skip(4));
        r
    } else {
        string_of_range(&cs, 0, cs.len())
    }
}


pub proof fn lemma_parent_shorter(p: Seq<char>)
    ensures
        spec_parent(p) matches Some(q) ==> q.len() < p.len(),
{
    lemma_last_slash(p);
}

/// `Path::ancestors`: the path itself, then its parent, and so on.
pub open spec fn spec_ancestors(p: Seq<char>) -> Seq<Seq<char>>
    decreases p.len(),
{
    match spec_parent(p) {
        Some(q) => {
            proof {
                lemma_parent_shorter(p);
            }
            seq![p] + spec_ancestors(q)
        },
        None => seq![p],
    }
}

/// The path and each of its ancestors, nearest first.
pub fn ancestors(p: &str) -> (r: Vec<String>)
    ensures
        r.deep_view() == spec_ancestors(p@),
{
    let mut r: Vec<String> = Vec::new();
    let mut cur: String = p.to_owned();
    assert(r.deep_view() + spec_ancestors(cur@) =~= spec_ancestors(p@));
    loop
        invariant_except_break
            r.deep_view() + spec_ancestors(cur@) == spec_ancestors(p@),
        ensures
            r.deep_view() == spec_ancestors(p@),
        decreases cur@.len(),
    {
        proof {
            lemma_parent_shorter(cur@);
        }
        let ghost before = r.deep_view();
        let ghost cv = cur@;
        let next = parent(cur.as_str());
        r.push(cur);
        assert(r.deep_view() =~= before.push(cv));
        match next {
            Some(q) => {
                assert(r.deep_view() + spec_ancestors(q@) =~= before + spec_ancestors(cv));
                cur = q;
            },
            None => {
                assert(r.deep_view() =~= before + spec_ancestors(cv));
                break;
            },
        }
    }
    r
}

} // verus!
