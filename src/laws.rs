//! Properties of duplicate reports that hold of every index.

use crate::duplicates::{groups_numbered, is_duplicate_report, is_duplicated, rows_sorted, DuplicateEntry};
use crate::index::FileMeta;
use crate::order::{key_lt, lemma_key_lt_properties, path_lt};
use crate::render::report_lines;
use vstd::prelude::*;

verus! {

/// The (digest, path) key of each row.
pub open spec fn row_keys(rows: Seq<DuplicateEntry>) -> Seq<(u64, Seq<char>)> {
    rows.map_values(|r: DuplicateEntry| (r.hash, r.path@))
}

/// Keys strictly ascending.
pub open spec fn keys_sorted(x: Seq<(u64, Seq<char>)>) -> bool {
    forall|i: int, j: int| 0 <= i < j < x.len() ==> key_lt(x[i].0, x[i].1, x[j].0, x[j].1)
}

proof fn lemma_sorted_keys_unique(x: Seq<(u64, Seq<char>)>, y: Seq<(u64, Seq<char>)>)
    requires
        keys_sorted(x),
        keys_sorted(y),
        forall|e: (u64, Seq<char>)| x.contains(e) <==> y.contains(e),
    ensures
        x == y,
    decreases x.len(),
{
    if x.len() == 0 {
        if y.len() > 0 {
            assert(y.contains(y[0]));
        }
        assert(x =~= y);
    } else if y.len() == 0 {
        assert(x.contains(x[0]));
    } else {
        assert(x.contains(x[0]));
        assert(y.contains(y[0]));
        let k = choose|k: int| 0 <= k < y.len() && y[k] == x[0];
        let j = choose|j: int| 0 <= j < x.len() && x[j] == y[0];
        lemma_key_lt_properties(x[0].0, x[0].1, y[0].0, y[0].1, x[0].0, x[0].1);
        if k > 0 {
            assert(key_lt(y[0].0, y[0].1, y[k].0, y[k].1));
            if j > 0 {
                assert(key_lt(x[0].0, x[0].1, x[j].0, x[j].1));
            }
        }
        assert(x[0] == y[0]);
        let xt = x.drop_first();
        let yt = y.drop_first();
        assert forall|e: (u64, Seq<char>)| xt.contains(e) <==> yt.contains(e) by {
            if xt.contains(e) {
                let a = choose|a: int| 0 <= a < xt.len() && xt[a] == e;
                assert(x[a + 1] == e);
                assert(key_lt(x[0].0, x[0].1, x[a + 1].0, x[a + 1].1));
                lemma_key_lt_properties(e.0, e.1, e.0, e.1, e.0, e.1);
                assert(y.contains(e));
                let b = choose|b: int| 0 <= b < y.len() && y[b] == e;
                assert(b != 0);
                assert(yt[b - 1] == e);
            }
            if yt.contains(e) {
                let a = choose|a: int| 0 <= a < yt.len() && yt[a] == e;
                assert(y[a + 1] == e);
                assert(key_lt(y[0].0, y[0].1, y[a + 1].0, y[a + 1].1));
                lemma_key_lt_properties(e.0, e.1, e.0, e.1, e.0, e.1);
                assert(x.contains(e));
                let b = choose|b: int| 0 <= b < x.len() && x[b] == e;
                assert(b != 0);
                assert(xt[b - 1] == e);
            }
        }
        assert forall|i: int, j2: int| 0 <= i < j2 < xt.len() implies key_lt(
            xt[i].0,
            xt[i].1,
            xt[j2].0,
            xt[j2].1,
        ) by {
            assert(xt[i] == x[i + 1] && xt[j2] == x[j2 + 1]);
        }
        assert forall|i: int, j2: int| 0 <= i < j2 < yt.len() implies key_lt(
            yt[i].0,
            yt[i].1,
            yt[j2].0,
            yt[j2].1,
        ) by {
            assert(yt[i] == y[i + 1] && yt[j2] == y[j2 + 1]);
        }
        lemma_sorted_keys_unique(xt, yt);
        assert(x =~= seq![x[0]] + xt);
        assert(y =~= seq![y[0]] + yt);
    }
}

proof fn lemma_report_keys(m: Map<Seq<char>, FileMeta>, rows: Seq<DuplicateEntry>)
    requires
        is_duplicate_report(m, rows),
    ensures
        keys_sorted(row_keys(rows)),
        forall|e: (u64, Seq<char>)|
            #[trigger] row_keys(rows).contains(e) <==> (m.contains_key(e.1) && is_duplicated(m, m[e.1].hash)
                && e.0 == m[e.1].hash),
{
    let ks = row_keys(rows);
    assert forall|i: int, j: int| 0 <= i < j < ks.len() implies key_lt(
        ks[i].0,
        ks[i].1,
        ks[j].0,
        ks[j].1,
    ) by {
        assert(key_lt(rows[i].hash, rows[i].path@, rows[j].hash, rows[j].path@));
    }
    assert forall|e: (u64, Seq<char>)| #[trigger] ks.contains(e) <==> (m.contains_key(e.1)
        && is_duplicated(m, m[e.1].hash) && e.0 == m[e.1].hash) by {
        if ks.contains(e) {
            let a = choose|a: int| 0 <= a < ks.len() && ks[a] == e;
            assert(m.contains_key(rows[a].path@));
        }
        if m.contains_key(e.1) && is_duplicated(m, m[e.1].hash) && e.0 == m[e.1].hash {
            let a = choose|a: int| 0 <= a < rows.len() && rows[a].path@ == e.1;
            assert(m.contains_key(rows[a].path@));
            assert(ks[a] == e);
        }
    }
}

/// Reporting is reproducible: any two duplicate reports of the same index
/// render to the same text, so running the reporter twice over an unchanged
/// index gives identical output.
pub proof fn lemma_report_reproducible(
    m: Map<Seq<char>, FileMeta>,
    a: Seq<DuplicateEntry>,
    b: Seq<DuplicateEntry>,
)
    requires
        is_duplicate_report(m, a),
        is_duplicate_report(m, b),
    ensures
        report_lines(a) == report_lines(b),
{
    lemma_report_keys(m, a);
    lemma_report_keys(m, b);
    let ka = row_keys(a);
    let kb = row_keys(b);
    assert forall|e: (u64, Seq<char>)| ka.contains(e) <==> kb.contains(e) by {
        assert(ka.contains(e) <==> (m.contains_key(e.1) && is_duplicated(m, m[e.1].hash) && e.0
            == m[e.1].hash));
        assert(kb.contains(e) <==> (m.contains_key(e.1) && is_duplicated(m, m[e.1].hash) && e.0
            == m[e.1].hash));
    }
    lemma_sorted_keys_unique(ka, kb);
    assert(a.len() == ka.len() && b.len() == kb.len());
    assert forall|i: int| 0 <= i < a.len() implies a[i].path@ == b[i].path@ && a[i].hash == b[i].hash
        && a[i].mtime == b[i].mtime by {
        assert(ka[i] == kb[i]);
        assert(m.contains_key(a[i].path@));
        assert(m.contains_key(b[i].path@));
    }
    lemma_same_groups(a, b, a.len() as int);
    assert(report_lines(a) =~= report_lines(b)) by {
        assert forall|i: int| 0 <= i < a.len() implies a[i].group == b[i].group by {
        }
    }
}

proof fn lemma_same_groups(a: Seq<DuplicateEntry>, b: Seq<DuplicateEntry>, n: int)
    requires
        a.len() == b.len(),
        0 <= n <= a.len(),
        groups_numbered(a),
        groups_numbered(b),
        forall|i: int| 0 <= i < a.len() ==> a[i].hash == b[i].hash,
    ensures
        forall|i: int| 0 <= i < n ==> a[i].group == b[i].group,
    decreases n,
{
    if n > 0 {
        lemma_same_groups(a, b, n - 1);
        if n - 1 > 0 {
            assert(a[n - 1].group as int == a[n - 2].group as int + (if a[n - 1].hash == a[n
                - 2].hash {
                0int
            } else {
                1int
            }));
            assert(b[n - 1].group as int == b[n - 2].group as int + (if b[n - 1].hash == b[n
                - 2].hash {
                0int
            } else {
                1int
            }));
        }
    }
}

proof fn lemma_groups_grow(rows: Seq<DuplicateEntry>, i: int, j: int)
    requires
        groups_numbered(rows),
        0 <= i <= j < rows.len(),
        rows_sorted(rows),
    ensures
        rows[i].group <= rows[j].group,
        rows[i].hash != rows[j].hash ==> rows[i].group < rows[j].group,
    decreases j - i,
{
    if i < j {
        lemma_groups_grow(rows, i, j - 1);
        assert(rows[j].group as int == rows[j - 1].group as int + (if rows[j].hash == rows[j
            - 1].hash {
            0int
        } else {
            1int
        }));
    }
}

/// Ordering of a report: within a group, members come in ascending path
/// order; across groups, the lower digest has the lower group number.
pub proof fn lemma_report_order(m: Map<Seq<char>, FileMeta>, rows: Seq<DuplicateEntry>)
    requires
        is_duplicate_report(m, rows),
    ensures
        forall|i: int, j: int|
            0 <= i < j < rows.len() && rows[i].hash == rows[j].hash ==> path_lt(
                rows[i].path@,
                rows[j].path@,
            ),
        forall|i: int, j: int|
            0 <= i < rows.len() && 0 <= j < rows.len() && rows[i].hash < rows[j].hash
                ==> rows[i].group < rows[j].group,
        forall|i: int, j: int|
            0 <= i < rows.len() && 0 <= j < rows.len() ==> (rows[i].hash == rows[j].hash
                <==> rows[i].group == rows[j].group),
{
    lemma_numbered_rows_order(rows);
}

#[verifier::rlimit(40)]
proof fn lemma_numbered_rows_order(rows: Seq<DuplicateEntry>)
    requires
        rows_sorted(rows),
        groups_numbered(rows),
    ensures
        forall|i: int, j: int|
            0 <= i < j < rows.len() && rows[i].hash == rows[j].hash ==> path_lt(
                rows[i].path@,
                rows[j].path@,
            ),
        forall|i: int, j: int|
            0 <= i < rows.len() && 0 <= j < rows.len() && rows[i].hash < rows[j].hash
                ==> rows[i].group < rows[j].group,
        forall|i: int, j: int|
            0 <= i < rows.len() && 0 <= j < rows.len() ==> (rows[i].hash == rows[j].hash
                <==> rows[i].group == rows[j].group),
{
    assert forall|i: int, j: int|
        0 <= i < j < rows.len() && rows[i].hash == rows[j].hash implies path_lt(
            rows[i].path@,
            rows[j].path@,
        ) by {
        assert(key_lt(rows[i].hash, rows[i].path@, rows[j].hash, rows[j].path@));
    }
    assert forall|i: int, j: int|
        0 <= i < rows.len() && 0 <= j < rows.len() && rows[i].hash < rows[j].hash implies rows[i].group
        < rows[j].group by {
        if j < i {
            assert(key_lt(rows[j].hash, rows[j].path@, rows[i].hash, rows[i].path@));
        }
        if i != j {
            lemma_groups_grow(rows, i, j);
        }
    }
    assert forall|i: int, j: int| 0 <= i < rows.len() && 0 <= j < rows.len() implies (rows[i].hash
        == rows[j].hash <==> rows[i].group == rows[j].group) by {
        if i < j {
            lemma_groups_grow(rows, i, j);
            if rows[i].hash == rows[j].hash {
                lemma_same_hash_same_group(rows, i, j);
            }
        } else if j < i {
            lemma_groups_grow(rows, j, i);
            if rows[i].hash == rows[j].hash {
                lemma_same_hash_same_group(rows, j, i);
            }
        }
    }
}

proof fn lemma_same_hash_same_group(rows: Seq<DuplicateEntry>, i: int, j: int)
    requires
        groups_numbered(rows),
        rows_sorted(rows),
        0 <= i <= j < rows.len(),
        rows[i].hash == rows[j].hash,
    ensures
        rows[i].group == rows[j].group,
    decreases j - i,
{
    if i < j {
        assert(key_lt(rows[i].hash, rows[i].path@, rows[j - 1].hash, rows[j - 1].path@) || i == j
            - 1);
        if i < j - 1 {
            assert(key_lt(rows[j - 1].hash, rows[j - 1].path@, rows[j].hash, rows[j].path@));
        }
        assert(rows[j - 1].hash == rows[j].hash);
        lemma_same_hash_same_group(rows, i, j - 1);
        assert(rows[j].group as int == rows[j - 1].group as int + (if rows[j].hash == rows[j
            - 1].hash {
            0int
        } else {
            1int
        }));
    }
}

/// Grouping of a single pair: when exactly two paths `p` and `q` of the index
/// share a digest and every other pair of paths differs, the report holds one
/// group, numbered 1, with exactly those two members; no other file appears.
pub proof fn lemma_single_pair_single_group(
    m: Map<Seq<char>, FileMeta>,
    rows: Seq<DuplicateEntry>,
    p: Seq<char>,
    q: Seq<char>,
)
    requires
        is_duplicate_report(m, rows),
        p != q,
        m.contains_key(p),
        m.contains_key(q),
        m[p].hash == m[q].hash,
        forall|x: Seq<char>, y: Seq<char>|
            m.contains_key(x) && m.contains_key(y) && x != y && !(x == p && y == q) && !(x == q
                && y == p) ==> #[trigger] m[x].hash != #[trigger] m[y].hash,
    ensures
        rows.len() == 2,
        rows[0].group == 1 && rows[1].group == 1,
        (rows[0].path@ == p && rows[1].path@ == q) || (rows[0].path@ == q && rows[1].path@ == p),
{
    assert forall|i: int| 0 <= i < rows.len() implies rows[i].path@ == p || rows[i].path@ == q by {
        let x = rows[i].path@;
        assert(m.contains_key(x));
        let h = rows[i].hash;
        assert(is_duplicated(m, h));
        let (p1, p2) = choose|p1: Seq<char>, p2: Seq<char>|
            p1 != p2 && m.contains_key(p1) && m.contains_key(p2) && m[p1].hash == h && m[p2].hash
                == h;
        let y = if p1 != x { p1 } else { p2 };
        if x != p && x != q {
            assert(m[x].hash != m[y].hash);
        }
    }
    assert(is_duplicated(m, m[p].hash));
    assert(is_duplicated(m, m[q].hash));
    let ip = choose|i: int| 0 <= i < rows.len() && rows[i].path@ == p;
    let iq = choose|i: int| 0 <= i < rows.len() && rows[i].path@ == q;
    assert forall|i: int, j: int| 0 <= i < j < rows.len() implies rows[i].path@ != rows[j].path@ by {
        assert(key_lt(rows[i].hash, rows[i].path@, rows[j].hash, rows[j].path@));
        assert(m.contains_key(rows[i].path@) && m.contains_key(rows[j].path@));
        lemma_key_lt_properties(rows[i].hash, rows[i].path@, rows[i].hash, rows[i].path@, rows[i].hash, rows[i].path@);
    }
    if rows.len() > 2 {
        assert(rows[0].path@ != rows[1].path@);
        assert(rows[0].path@ != rows[2].path@);
        assert(rows[1].path@ != rows[2].path@);
    }
    assert(rows[0].hash == m[rows[0].path@].hash);
    assert(rows[1].hash == m[rows[1].path@].hash);
}

} // verus!
