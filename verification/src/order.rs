//! Orders on character sequences and the sorted containers built on them.
//!
//! Two orders are used: plain lexicographic order on characters (the order of
//! `String`), and path order, which is the same except that the separator `/`
//! sorts before every other character, so that a path sorts by its components.
use vstd::prelude::*;
use crate::text::chars_of;

verus! {

/// The rank of a character; with `slash_low`, `/` ranks below every other character.
pub open spec fn char_rank(c: char, slash_low: bool) -> int {
    if slash_low {
        if c == '/' {
            0
        } else {
            2 * (c as int) + 1
        }
    } else {
        c as int
    }
}

/// Strict lexicographic order on character sequences.
pub open spec fn lex_lt(a: Seq<char>, b: Seq<char>, slash_low: bool) -> bool
    decreases a.len(),
{
    if a.len() == 0 {
        b.len() > 0
    } else if b.len() == 0 {
        false
    } else if a[0] == b[0] {
        lex_lt(a.drop_first(), b.drop_first(), slash_low)
    } else {
        char_rank(a[0], slash_low) < char_rank(b[0], slash_low)
    }
}

/// `a` comes before `b` in the order of `String`.
pub open spec fn str_lt(a: Seq<char>, b: Seq<char>) -> bool {
    lex_lt(a, b, false)
}

/// `a` comes before `b` in path order.
pub open spec fn path_lt(a: Seq<char>, b: Seq<char>) -> bool {
    lex_lt(a, b, true)
}

pub proof fn lemma_lex_irreflexive(a: Seq<char>, f: bool)
    ensures
        !lex_lt(a, a, f),
    decreases a.len(),
{
    if a.len() > 0 {
        lemma_lex_irreflexive(a.drop_first(), f);
    }
}

pub proof fn lemma_lex_asymmetric(a: Seq<char>, b: Seq<char>, f: bool)
    ensures
        lex_lt(a, b, f) ==> !lex_lt(b, a, f),
    decreases a.len(),
{
    if a.len() > 0 && b.len() > 0 && a[0] == b[0] {
        lemma_lex_asymmetric(a.drop_first(), b.drop_first(), f);
    }
}

pub proof fn lemma_lex_total(a: Seq<char>, b: Seq<char>, f: bool)
    ensures
        a != b ==> lex_lt(a, b, f) || lex_lt(b, a, f),
    decreases a.len(),
{
    if a.len() == 0 && b.len() == 0 {
        assert(a =~= b);
    } else if a.len() == 0 || b.len() == 0 {
    } else if a[0] == b[0] {
        lemma_lex_total(a.drop_first(), b.drop_first(), f);
        if a.drop_first() =~= b.drop_first() {
            assert(a =~= b) by {
                assert forall|j: int| 0 <= j < a.len() implies a[j] == b[j] by {
                    if j > 0 {
                        assert(a[j] == a.drop_first()[j - 1]);
                        assert(b[j] == b.drop_first()[j - 1]);
                    }
                }
            }
        }
    } else {
        let x = a[0];
        let y = b[0];
        assert(x as int != y as int);
    }
}

pub proof fn lemma_lex_transitive(a: Seq<char>, b: Seq<char>, c: Seq<char>, f: bool)
    requires
        lex_lt(a, b, f),
        lex_lt(b, c, f),
    ensures
        lex_lt(a, c, f),
    decreases a.len(),
{
    if a.len() > 0 && b.len() > 0 && c.len() > 0 && a[0] == b[0] && b[0] == c[0] {
        lemma_lex_transitive(a.drop_first(), b.drop_first(), c.drop_first(), f);
    }
}

/// Lexicographic order past a common prefix.
proof fn lemma_lex_skip(a: Seq<char>, b: Seq<char>, i: int, f: bool)
    requires
        0 <= i <= a.len(),
        i <= b.len(),
        forall|j: int| 0 <= j < i ==> a[j] == b[j],
    ensures
        lex_lt(a, b, f) == lex_lt(a.skip(i), b.skip(i), f),
    decreases i,
{
    if i == 0 {
        assert(a.skip(0) =~= a);
        assert(b.skip(0) =~= b);
    } else {
        assert(a[0] == b[0]);
        assert forall|j: int| 0 <= j < i - 1 implies a.drop_first()[j] == b.drop_first()[j] by {
            assert(a[j + 1] == b[j + 1]);
        }
        lemma_lex_skip(a.drop_first(), b.drop_first(), i - 1, f);
        assert(a.drop_first().skip(i - 1) =~= a.skip(i));
        assert(b.drop_first().skip(i - 1) =~= b.skip(i));
    }
}

/// Compares two character vectors in lexicographic order.
pub fn chars_lt(a: &Vec<char>, b: &Vec<char>, slash_low: bool) -> (r: bool)
    ensures
        r == lex_lt(a@, b@, slash_low),
{
    let mut i: usize = 0;
    while i < a.len() && i < b.len() && a[i] == b[i]
        invariant
            i <= a@.len(),
            i <= b@.len(),
            forall|j: int| 0 <= j < i ==> a@[j] == b@[j],
        decreases a.len() - i,
    {
        i = i + 1;
    }
    proof {
        lemma_lex_skip(a@, b@, i as int, slash_low);
    }
    if i == a.len() {
        proof {
            if i < b.len() {
                assert(b@.skip(i as int).len() > 0);
            } else {
                assert(b@.skip(i as int).len() == 0);
            }
            assert(a@.skip(i as int).len() == 0);
        }
        i < b.len()
    } else if i == b.len() {
        assert(b@.skip(i as int).len() == 0);
        assert(a@.skip(i as int).len() > 0);
        false
    } else {
        let x = a[i];
        let y = b[i];
        assert(a@.skip(i as int)[0] == x);
        assert(b@.skip(i as int)[0] == y);
        assert(x != y);
        if slash_low && x == '/' {
            !(y < '\u{0}')
        } else if slash_low && y == '/' {
            x < '\u{0}'
        } else {
            x < y
        }
    }
}

/// Compares two strings in lexicographic order (`slash_low` selects path order).
pub fn text_lt(a: &str, b: &str, slash_low: bool) -> (r: bool)
    ensures
        r == lex_lt(a@, b@, slash_low),
{
    let ca = chars_of(a);
    let cb = chars_of(b);
    chars_lt(&ca, &cb, slash_low)
}

/// Whether two strings hold the same characters.
pub fn text_eq(a: &str, b: &str) -> (r: bool)
    ensures
        r == (a@ == b@),
{
    let ca = chars_of(a);
    let cb = chars_of(b);
    if ca.len() != cb.len() {
        return false;
    }
    let mut i: usize = 0;
    while i < ca.len()
        invariant
            ca@ == a@,
            cb@ == b@,
            ca@.len() == cb@.len(),
            i <= ca@.len(),
            forall|j: int| 0 <= j < i ==> ca@[j] == cb@[j],
        decreases ca.len() - i,
    {
        if ca[i] != cb[i] {
            assert(ca@[i as int] != cb@[i as int]);
            assert(ca@ != cb@);
            assert(a@ != b@);
            return false;
        }
        i = i + 1;
    }
    assert(ca@ == cb@);
    true
}


/// A key-sorted association sequence with `(k, v)` put in: the value under an
/// equal key is replaced, otherwise the pair goes before the first greater key.
/// This is the behavior of `BTreeMap::insert` on a map listed in key order.
pub open spec fn assoc_put<V>(s: Seq<(Seq<char>, V)>, k: Seq<char>, v: V, f: bool) -> Seq<(Seq<char>, V)>
    decreases s.len(),
{
    if s.len() == 0 {
        seq![(k, v)]
    } else if s[0].0 == k {
        s.update(0, (k, v))
    } else if lex_lt(k, s[0].0, f) {
        seq![(k, v)] + s
    } else {
        seq![s[0]] + assoc_put(s.drop_first(), k, v, f)
    }
}

/// The value under the first key equal to `k`.
pub open spec fn assoc_get<V>(s: Seq<(Seq<char>, V)>, k: Seq<char>) -> Option<V>
    decreases s.len(),
{
    if s.len() == 0 {
        None
    } else if s[0].0 == k {
        Some(s[0].1)
    } else {
        assoc_get(s.drop_first(), k)
    }
}

/// A sorted set sequence with `x` added (no change when `x` is already there).
pub open spec fn set_put(s: Seq<Seq<char>>, x: Seq<char>, f: bool) -> Seq<Seq<char>>
    decreases s.len(),
{
    if s.len() == 0 {
        seq![x]
    } else if s[0] == x {
        s
    } else if lex_lt(x, s[0], f) {
        seq![x] + s
    } else {
        seq![s[0]] + set_put(s.drop_first(), x, f)
    }
}

proof fn lemma_assoc_put_skip<V>(s: Seq<(Seq<char>, V)>, k: Seq<char>, v: V, f: bool, i: int)
    requires
        0 <= i <= s.len(),
        forall|j: int| 0 <= j < i ==> s[j].0 != k && !lex_lt(k, s[j].0, f),
    ensures
        assoc_put(s, k, v, f) == s.take(i) + assoc_put(s.skip(i), k, v, f),
    decreases i,
{
    if i == 0 {
        assert(s.take(0) + s.skip(0) =~= s);
        assert(s.skip(0) =~= s);
    } else {
        lemma_assoc_put_skip(s.drop_first(), k, v, f, i - 1);
        assert(s.drop_first().skip(i - 1) =~= s.skip(i));
        assert(seq![s[0]] + s.drop_first().take(i - 1) =~= s.take(i));
    }
}

proof fn lemma_set_put_skip(s: Seq<Seq<char>>, x: Seq<char>, f: bool, i: int)
    requires
        0 <= i <= s.len(),
        forall|j: int| 0 <= j < i ==> s[j] != x && !lex_lt(x, s[j], f),
    ensures
        set_put(s, x, f) == s.take(i) + set_put(s.skip(i), x, f),
    decreases i,
{
    if i == 0 {
        assert(s.skip(0) =~= s);
    } else {
        lemma_set_put_skip(s.drop_first(), x, f, i - 1);
        assert(s.drop_first().skip(i - 1) =~= s.skip(i));
        assert(seq![s[0]] + s.drop_first().take(i - 1) =~= s.take(i));
    }
}

proof fn lemma_assoc_get_skip<V>(s: Seq<(Seq<char>, V)>, k: Seq<char>, i: int)
    requires
        0 <= i <= s.len(),
        forall|j: int| 0 <= j < i ==> s[j].0 != k,
    ensures
        assoc_get(s, k) == assoc_get(s.skip(i), k),
    decreases i,
{
    if i == 0 {
        assert(s.skip(0) =~= s);
    } else {
        lemma_assoc_get_skip(s.drop_first(), k, i - 1);
        assert(s.drop_first().skip(i - 1) =~= s.skip(i));
    }
}

/// Puts `(k, v)` into a key-sorted association vector (see `assoc_put`).
pub fn assoc_insert<V: DeepView>(m: &mut Vec<(String, V)>, k: String, v: V, f: bool)
    ensures
        final(m).deep_view() == assoc_put(old(m).deep_view(), k@, v.deep_view(), f),
{
    let ghost s = old(m).deep_view();
    let mut i: usize = 0;
    while i < m.len() && !(m[i].0 == k) && !text_lt(k.as_str(), m[i].0.as_str(), f)
        invariant
            i <= m@.len(),
            m.deep_view() == s,
            forall|j: int| 0 <= j < i ==> s[j].0 != k@ && !lex_lt(k@, s[j].0, f),
        decreases m.len() - i,
    {
        assert(s[i as int].0 == m@[i as int].0@);
        i = i + 1;
    }
    proof {
        lemma_assoc_put_skip(s, k@, v.deep_view(), f, i as int);
    }
    let ghost kv = (k@, v.deep_view());
    if i == m.len() {
        m.push((k, v));
        assert(s.skip(i as int).len() == 0);
        assert(m.deep_view() =~= s.take(i as int) + seq![kv]);
    } else if m[i].0 == k {
        assert(s.skip(i as int)[0].0 == k@);
        m.set(i, (k, v));
        assert(m.deep_view() =~= s.take(i as int) + s.skip(i as int).update(0, kv));
    } else {
        assert(s.skip(i as int)[0].0 == m@[i as int].0@);
        m.insert(i, (k, v));
        assert(m.deep_view() =~= s.take(i as int) + (seq![kv] + s.skip(i as int)));
    }
}

/// Adds `x` to a sorted set vector (see `set_put`).
pub fn set_insert(m: &mut Vec<String>, x: String, f: bool)
    ensures
        final(m).deep_view() == set_put(old(m).deep_view(), x@, f),
{
    let ghost s = old(m).deep_view();
    let mut i: usize = 0;
    while i < m.len() && !(m[i] == x) && !text_lt(x.as_str(), m[i].as_str(), f)
        invariant
            i <= m@.len(),
            m.deep_view() == s,
            forall|j: int| 0 <= j < i ==> s[j] != x@ && !lex_lt(x@, s[j], f),
        decreases m.len() - i,
    {
        assert(s[i as int] == m@[i as int]@);
        i = i + 1;
    }
    proof {
        lemma_set_put_skip(s, x@, f, i as int);
    }
    if i == m.len() {
        assert(s.skip(i as int).len() == 0);
        m.push(x);
        assert(m.deep_view() =~= s.take(i as int) + seq![x@]);
    } else if m[i] == x {
        assert(s.skip(i as int)[0] == x@);
        assert(s.take(i as int) + s.skip(i as int) =~= s);
    } else {
        assert(s.skip(i as int)[0] == m@[i as int]@);
        let ghost xv = x@;
        m.insert(i, x);
        assert(m.deep_view() =~= s.take(i as int) + (seq![xv] + s.skip(i as int)));
    }
}

/// The index of the first pair whose key is `k`, if any.
pub fn assoc_find<V: DeepView>(m: &Vec<(String, V)>, k: &str) -> (r: Option<usize>)
    ensures
        match r {
            Some(i) => i < m@.len() && m.deep_view()[i as int].0 == k@ && assoc_get(m.deep_view(), k@)
                == Some(m.deep_view()[i as int].1),
            None => assoc_get(m.deep_view(), k@) is None,
        },
{
    let ghost s = m.deep_view();
    let mut i: usize = 0;
    while i < m.len()
        invariant
            i <= m@.len(),
            s == m.deep_view(),
            forall|j: int| 0 <= j < i ==> s[j].0 != k@,
        decreases m.len() - i,
    {
        if text_eq(m[i].0.as_str(), k) {
            proof {
                lemma_assoc_get_skip(s, k@, i as int);
            }
            return Some(i);
        }
        assert(s[i as int].0 == m@[i as int].0@);
        i = i + 1;
    }
    proof {
        lemma_assoc_get_skip(s, k@, i as int);
    }
    None
}


/// Reading a key after a put: the value put under it, and what was there
/// before under any other key.
pub proof fn lemma_assoc_get_put<V>(s: Seq<(Seq<char>, V)>, k: Seq<char>, v: V, f: bool, q: Seq<char>)
    ensures
        assoc_get(assoc_put(s, k, v, f), q) == if q == k {
            Some(v)
        } else {
            assoc_get(s, q)
        },
    decreases s.len(),
{
    if s.len() == 0 {
    } else if s[0].0 == k {
        let t = s.update(0, (k, v));
        assert(assoc_put(s, k, v, f) == t);
        assert(t[0].0 == k);
        assert(t.drop_first() =~= s.drop_first());
        assert(assoc_get(t, q) == if q == k { Some(v) } else { assoc_get(t.drop_first(), q) });
    } else if lex_lt(k, s[0].0, f) {
        let t = seq![(k, v)] + s;
        assert(assoc_put(s, k, v, f) == t);
        assert(t.drop_first() =~= s);
        assert(assoc_get(t, q) == if q == k { Some(v) } else { assoc_get(t.drop_first(), q) });
    } else {
        lemma_assoc_get_put(s.drop_first(), k, v, f, q);
        let t = seq![s[0]] + assoc_put(s.drop_first(), k, v, f);
        assert(assoc_put(s, k, v, f) == t);
        assert(t.drop_first() =~= assoc_put(s.drop_first(), k, v, f));
        assert(assoc_get(t, q) == if q == s[0].0 { Some(s[0].1) } else { assoc_get(t.drop_first(), q) });
    }
}

/// Every pair after a put was there before, or is the one put.
pub proof fn lemma_assoc_put_pairs<V>(s: Seq<(Seq<char>, V)>, k: Seq<char>, v: V, f: bool)
    ensures
        forall|x: (Seq<char>, V)| #[trigger] assoc_put(s, k, v, f).contains(x) ==> x == (k, v) || s.contains(x),
    decreases s.len(),
{
    if s.len() == 0 {
        assert forall|x: (Seq<char>, V)| #[trigger] assoc_put(s, k, v, f).contains(x) implies x == (k, v) || s.contains(x) by {
            let i = choose|i: int| 0 <= i < assoc_put(s, k, v, f).len() && assoc_put(s, k, v, f)[i] == x;
        }
    } else if s[0].0 == k {
        assert forall|x: (Seq<char>, V)| #[trigger] assoc_put(s, k, v, f).contains(x) implies x == (k, v) || s.contains(x) by {
            let t = s.update(0, (k, v));
            let i = choose|i: int| 0 <= i < t.len() && t[i] == x;
            if i != 0 {
                assert(s[i] == x);
            }
        }
    } else if lex_lt(k, s[0].0, f) {
        assert forall|x: (Seq<char>, V)| #[trigger] assoc_put(s, k, v, f).contains(x) implies x == (k, v) || s.contains(x) by {
            let t = seq![(k, v)] + s;
            let i = choose|i: int| 0 <= i < t.len() && t[i] == x;
            if i != 0 {
                assert(s[i - 1] == x);
            }
        }
    } else {
        lemma_assoc_put_pairs(s.drop_first(), k, v, f);
        assert forall|x: (Seq<char>, V)| #[trigger] assoc_put(s, k, v, f).contains(x) implies x == (k, v) || s.contains(x) by {
            let r = assoc_put(s.drop_first(), k, v, f);
            let t = seq![s[0]] + r;
            let i = choose|i: int| 0 <= i < t.len() && t[i] == x;
            if i == 0 {
                assert(s[0] == x);
            } else {
                assert(r[i - 1] == x);
                assert(r.contains(x));
                if s.drop_first().contains(x) {
                    let j = choose|j: int| 0 <= j < s.drop_first().len() && s.drop_first()[j] == x;
                    assert(s[j + 1] == x);
                }
            }
        }
    }
}


/// The members of a set after a put: those before, and the one put.
pub proof fn lemma_set_put_contains(s: Seq<Seq<char>>, x: Seq<char>, f: bool)
    ensures
        forall|y: Seq<char>| #[trigger] set_put(s, x, f).contains(y) <==> s.contains(y) || y == x,
    decreases s.len(),
{
    if s.len() == 0 {
        assert forall|y: Seq<char>| #[trigger] set_put(s, x, f).contains(y) <==> s.contains(y) || y == x by {
            assert(set_put(s, x, f) == seq![x]);
            if y == x {
                assert(seq![x][0] == x);
            }
        }
    } else if s[0] == x {
        assert forall|y: Seq<char>| #[trigger] set_put(s, x, f).contains(y) <==> s.contains(y) || y == x by {
            if y == x {
                assert(s[0] == x);
            }
        }
    } else if lex_lt(x, s[0], f) {
        let t = seq![x] + s;
        assert(set_put(s, x, f) == t);
        assert forall|y: Seq<char>| #[trigger] set_put(s, x, f).contains(y) <==> s.contains(y) || y == x by {
            if t.contains(y) {
                let i = choose|i: int| 0 <= i < t.len() && t[i] == y;
                if i > 0 {
                    assert(s[i - 1] == y);
                }
            }
            if s.contains(y) {
                let i = choose|i: int| 0 <= i < s.len() && s[i] == y;
                assert(t[i + 1] == y);
            }
            if y == x {
                assert(t[0] == x);
            }
        }
    } else {
        let r = set_put(s.drop_first(), x, f);
        lemma_set_put_contains(s.drop_first(), x, f);
        let t = seq![s[0]] + r;
        assert(set_put(s, x, f) == t);
        assert forall|y: Seq<char>| #[trigger] set_put(s, x, f).contains(y) <==> s.contains(y) || y == x by {
            if t.contains(y) {
                let i = choose|i: int| 0 <= i < t.len() && t[i] == y;
                if i > 0 {
                    assert(r[i - 1] == y);
                    assert(r.contains(y));
                    if s.drop_first().contains(y) {
                        let j = choose|j: int| 0 <= j < s.drop_first().len() && s.drop_first()[j] == y;
                        assert(s[j + 1] == y);
                    }
                } else {
                    assert(s[0] == y);
                }
            }
            if s.contains(y) {
                let i = choose|i: int| 0 <= i < s.len() && s[i] == y;
                if i == 0 {
                    assert(t[0] == y);
                } else {
                    assert(s.drop_first()[i - 1] == y);
                    assert(r.contains(y));
                    let j = choose|j: int| 0 <= j < r.len() && r[j] == y;
                    assert(t[j + 1] == y);
                }
            }
            if y == x {
                assert(r.contains(x));
                let j = choose|j: int| 0 <= j < r.len() && r[j] == x;
                assert(t[j + 1] == x);
            }
        }
    }
}

/// A key found has a pair with that key and the value found.
pub proof fn lemma_assoc_get_found<V>(s: Seq<(Seq<char>, V)>, k: Seq<char>)
    ensures
        assoc_get(s, k) matches Some(v) ==> exists|i: int| 0 <= i < s.len() && #[trigger] s[i] == (k, v),
    decreases s.len(),
{
    if s.len() > 0 && s[0].0 != k {
        lemma_assoc_get_found(s.drop_first(), k);
        if let Some(v) = assoc_get(s, k) {
            let i = choose|i: int| 0 <= i < s.drop_first().len() && #[trigger] s.drop_first()[i] == (k, v);
            assert(s[i + 1] == (k, v));
        }
    } else if s.len() > 0 {
        assert(s[0] == (k, s[0].1));
    }
}

} // verus!
