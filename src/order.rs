//! The order that duplicate rows are reported in: digest first, then path,
//! paths compared character by character.

use vstd::prelude::*;
use vstd::string::*;

verus! {

/// Strict lexicographic order on paths, by the code points of their characters;
/// a proper prefix comes first.
pub open spec fn path_lt(a: Seq<char>, b: Seq<char>) -> bool
    decreases a.len(),
{
    if a.len() == 0 {
        b.len() > 0
    } else if b.len() == 0 {
        false
    } else if a[0] != b[0] {
        a[0] < b[0]
    } else {
        path_lt(a.drop_first(), b.drop_first())
    }
}

/// Strict order on (digest, path) keys: by digest, then by path.
pub open spec fn key_lt(h1: u64, p1: Seq<char>, h2: u64, p2: Seq<char>) -> bool {
    h1 < h2 || (h1 == h2 && path_lt(p1, p2))
}

/// No path comes before itself.
pub proof fn lemma_path_lt_irreflexive(a: Seq<char>)
    ensures
        !path_lt(a, a),
    decreases a.len(),
{
    if a.len() > 0 {
        lemma_path_lt_irreflexive(a.drop_first());
    }
}

/// Of two paths, exactly one comes first, unless they are equal.
pub proof fn lemma_path_lt_total(a: Seq<char>, b: Seq<char>)
    ensures
        a != b ==> path_lt(a, b) || path_lt(b, a),
        !(path_lt(a, b) && path_lt(b, a)),
    decreases a.len(),
{
    if a.len() > 0 && b.len() > 0 && a[0] == b[0] {
        lemma_path_lt_total(a.drop_first(), b.drop_first());
        if a != b {
            assert(a =~= seq![a[0]] + a.drop_first());
            assert(b =~= seq![b[0]] + b.drop_first());
        }
    } else if a.len() == 0 && b.len() == 0 {
        assert(a =~= b);
    }
}

/// The order on paths is transitive.
pub proof fn lemma_path_lt_transitive(a: Seq<char>, b: Seq<char>, c: Seq<char>)
    requires
        path_lt(a, b),
        path_lt(b, c),
    ensures
        path_lt(a, c),
    decreases a.len(),
{
    if a.len() > 0 && b.len() > 0 && c.len() > 0 && a[0] == b[0] && b[0] == c[0] {
        lemma_path_lt_transitive(a.drop_first(), b.drop_first(), c.drop_first());
    }
}

/// The order on keys is transitive, and total on keys with distinct paths.
pub proof fn lemma_key_lt_properties(h1: u64, p1: Seq<char>, h2: u64, p2: Seq<char>, h3: u64, p3: Seq<char>)
    ensures
        key_lt(h1, p1, h2, p2) && key_lt(h2, p2, h3, p3) ==> key_lt(h1, p1, h3, p3),
        p1 != p2 ==> key_lt(h1, p1, h2, p2) || key_lt(h2, p2, h1, p1),
        !(key_lt(h1, p1, h2, p2) && key_lt(h2, p2, h1, p1)),
        !key_lt(h1, p1, h1, p1),
{
    lemma_path_lt_total(p1, p2);
    lemma_path_lt_irreflexive(p1);
    if key_lt(h1, p1, h2, p2) && key_lt(h2, p2, h3, p3) && h1 == h2 && h2 == h3 {
        lemma_path_lt_transitive(p1, p2, p3);
    }
}

/// The characters of a string, one element each.
pub fn chars_of(s: &String) -> (r: Vec<char>)
    ensures
        r@ == s@,
{
    let t = s.as_str();
    let n = t.unicode_len();
    let mut r: Vec<char> = Vec::new();
    let mut i: usize = 0;
    while i < n
        invariant
            n == t@.len(),
            t@ == s@,
            i <= n,
            r@ == s@.subrange(0, i as int),
        decreases n - i,
    {
        r.push(t.get_char(i));
        assert(r@ =~= s@.subrange(0, i as int + 1));
        i = i + 1;
    }
    assert(r@ =~= s@);
    r
}

/// Whether path `a` comes strictly before path `b`.
pub fn path_less(a: &Vec<char>, b: &Vec<char>) -> (r: bool)
    ensures
        r == path_lt(a@, b@),
{
    let mut i: usize = 0;
    assert(a@.subrange(0, a@.len() as int) =~= a@);
    assert(b@.subrange(0, b@.len() as int) =~= b@);
    while i < a.len() && i < b.len() && a[i] == b[i]
        invariant
            i <= a@.len(),
            i <= b@.len(),
            path_lt(a@, b@) == path_lt(a@.subrange(i as int, a@.len() as int), b@.subrange(i as int, b@.len() as int)),
        decreases a@.len() - i,
    {
        let ghost sa = a@.subrange(i as int, a@.len() as int);
        let ghost sb = b@.subrange(i as int, b@.len() as int);
        assert(sa.drop_first() =~= a@.subrange(i as int + 1, a@.len() as int));
        assert(sb.drop_first() =~= b@.subrange(i as int + 1, b@.len() as int));
        i = i + 1;
    }
    let ghost sa = a@.subrange(i as int, a@.len() as int);
    let ghost sb = b@.subrange(i as int, b@.len() as int);
    if i == a.len() {
        i < b.len()
    } else if i == b.len() {
        false
    } else {
        assert(sa[0] == a@[i as int] && sb[0] == b@[i as int]);
        a[i] < b[i]
    }
}

/// Whether key (`h1`, `p1`) comes strictly before key (`h2`, `p2`).
pub fn key_less(h1: u64, p1: &Vec<char>, h2: u64, p2: &Vec<char>) -> (r: bool)
    ensures
        r == key_lt(h1, p1@, h2, p2@),
{
    if h1 != h2 {
        h1 < h2
    } else {
        path_less(p1, p2)
    }
}

} // verus!
