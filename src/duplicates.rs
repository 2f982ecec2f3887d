//! Duplicate groups: the indexed files whose digest at least one other path
//! shares, ordered by digest and then by path, numbered from 1 per digest.

use crate::index::{FileIndex, FileMeta, FileRecord};
use crate::order::{chars_of, key_less, key_lt, lemma_key_lt_properties};
use vstd::prelude::*;

verus! {

/// One member of a duplicate group, as reported.
#[derive(Clone, Debug)]
pub struct DuplicateEntry {
    /// The group number: 1 for the lowest duplicated digest, one more for each
    /// further digest.
    pub group: u64,
    pub path: String,
    pub mtime: i64,
    pub hash: u64,
}

/// Whether two distinct paths of `m` have digest `h`.
pub open spec fn is_duplicated(m: Map<Seq<char>, FileMeta>, h: u64) -> bool {
    exists|p: Seq<char>, q: Seq<char>|
        p != q && m.contains_key(p) && m.contains_key(q) && m[p].hash == h && m[q].hash == h
}

/// Rows strictly ascending by digest, then by path.
pub open spec fn rows_sorted(rows: Seq<DuplicateEntry>) -> bool {
    forall|i: int, j: int|
        0 <= i < j < rows.len() ==> key_lt(rows[i].hash, rows[i].path@, rows[j].hash, rows[j].path@)
}

/// Group numbers start at 1 and grow by one exactly where the digest changes
/// from the row before.
pub open spec fn groups_numbered(rows: Seq<DuplicateEntry>) -> bool {
    &&& rows.len() > 0 ==> rows[0].group == 1
    &&& forall|i: int|
        0 < i < rows.len() ==> (#[trigger] rows[i]).group as int == rows[i - 1].group as int + (
        if rows[i].hash == rows[i - 1].hash {
            0int
        } else {
            1int
        })
}

/// `rows` is the duplicate report of the index `m`: one row for each path whose
/// digest another path shares, with its recorded digest and modification time,
/// in ascending (digest, path) order, numbered by digest.
pub open spec fn is_duplicate_report(m: Map<Seq<char>, FileMeta>, rows: Seq<DuplicateEntry>) -> bool {
    &&& forall|i: int|
        0 <= i < rows.len() ==> m.contains_key((#[trigger] rows[i]).path@) && m[rows[i].path@].hash
            == rows[i].hash && m[rows[i].path@].mtime == rows[i].mtime && is_duplicated(
            m,
            rows[i].hash,
        )
    &&& forall|p: Seq<char>|
        #[trigger] m.contains_key(p) && is_duplicated(m, m[p].hash) ==> exists|i: int|
            0 <= i < rows.len() && rows[i].path@ == p
    &&& rows_sorted(rows)
    &&& groups_numbered(rows)
}

/// Record `a` comes strictly before record `b`.
pub open spec fn rec_lt(rs: Seq<FileRecord>, a: int, b: int) -> bool {
    key_lt(rs[a].hash, rs[a].path@, rs[b].hash, rs[b].path@)
}

/// In the sorted order `ord`, the record at position `t` shares its digest with a
/// neighbour.
pub open spec fn dup_at(rs: Seq<FileRecord>, ord: Seq<usize>, t: int) -> bool {
    (t > 0 && rs[ord[t - 1] as int].hash == rs[ord[t] as int].hash) || (t + 1 < ord.len()
        && rs[ord[t + 1] as int].hash == rs[ord[t] as int].hash)
}

/// Position `i` occurs in `ord`.
pub open spec fn has_position(ord: Seq<usize>, i: int) -> bool {
    exists|t: int| 0 <= t < ord.len() && ord[t] == i
}

/// `ord` lists the positions of `rs` in strictly ascending key order.
pub open spec fn sorted_positions(rs: Seq<FileRecord>, ord: Seq<usize>, k: int) -> bool {
    &&& ord.len() == k
    &&& forall|t: int| 0 <= t < k ==> (#[trigger] ord[t]) < k
    &&& forall|i: int| 0 <= i < k ==> #[trigger] has_position(ord, i)
    &&& forall|t1: int, t2: int|
        0 <= t1 < t2 < k ==> rec_lt(rs, #[trigger] ord[t1] as int, #[trigger] ord[t2] as int)
}

/// The positions of `rs`, sorted by (digest, path).
fn sort_positions(rs: &Vec<FileRecord>, keys: &Vec<Vec<char>>) -> (ord: Vec<usize>)
    requires
        keys@.len() == rs@.len(),
        forall|i: int| 0 <= i < rs@.len() ==> (#[trigger] keys@[i])@ == rs@[i].path@,
        forall|i: int, j: int| 0 <= i < j < rs@.len() ==> rs@[i].path@ != rs@[j].path@,
    ensures
        sorted_positions(rs@, ord@, rs@.len() as int),
{
    let n = rs.len();
    let mut ord: Vec<usize> = Vec::new();
    let mut k: usize = 0;
    while k < n
        invariant
            n == rs@.len(),
            keys@.len() == rs@.len(),
            forall|i: int| 0 <= i < rs@.len() ==> (#[trigger] keys@[i])@ == rs@[i].path@,
            forall|i: int, j: int| 0 <= i < j < rs@.len() ==> rs@[i].path@ != rs@[j].path@,
            k <= n,
            sorted_positions(rs@, ord@, k as int),
        decreases n - k,
    {
        let mut t: usize = 0;
        while t < ord.len() && !key_less(rs[k].hash, &keys[k], rs[ord[t]].hash, &keys[ord[t]])
            invariant
                n == rs@.len(),
                keys@.len() == rs@.len(),
                forall|i: int| 0 <= i < rs@.len() ==> (#[trigger] keys@[i])@ == rs@[i].path@,
                forall|i: int, j: int| 0 <= i < j < rs@.len() ==> rs@[i].path@ != rs@[j].path@,
                k < n,
                sorted_positions(rs@, ord@, k as int),
                t <= ord@.len(),
                forall|u: int| 0 <= u < t ==> rec_lt(rs@, #[trigger] ord@[u] as int, k as int),
            decreases ord@.len() - t,
        {
            let ghost o = ord@[t as int] as int;
            proof {
                lemma_key_lt_properties(
                    rs@[k as int].hash,
                    rs@[k as int].path@,
                    rs@[o].hash,
                    rs@[o].path@,
                    rs@[o].hash,
                    rs@[o].path@,
                );
            }
            t = t + 1;
        }
        let ghost old_ord = ord@;
        ord.insert(t, k);
        proof {
            let ki = k as int;
            let ti = t as int;
            assert forall|t1: int, t2: int| 0 <= t1 < t2 < ki + 1 implies rec_lt(
                rs@,
                #[trigger] ord@[t1] as int,
                #[trigger] ord@[t2] as int,
            ) by {
                if t1 < ti && t2 < ti {
                    assert(ord@[t1] == old_ord[t1] && ord@[t2] == old_ord[t2]);
                } else if t1 > ti && t2 > ti {
                    assert(ord@[t1] == old_ord[t1 - 1] && ord@[t2] == old_ord[t2 - 1]);
                } else if t1 < ti && t2 > ti {
                    let a = old_ord[t1] as int;
                    let c = old_ord[t2 - 1] as int;
                    lemma_key_lt_properties(
                        rs@[a].hash,
                        rs@[a].path@,
                        rs@[ki].hash,
                        rs@[ki].path@,
                        rs@[c].hash,
                        rs@[c].path@,
                    );
                } else if t1 == ti {
                    if t2 - 1 > ti {
                        let b = old_ord[ti] as int;
                        let c = old_ord[t2 - 1] as int;
                        assert(rec_lt(rs@, old_ord[ti] as int, old_ord[t2 - 1] as int));
                        lemma_key_lt_properties(
                            rs@[ki].hash,
                            rs@[ki].path@,
                            rs@[b].hash,
                            rs@[b].path@,
                            rs@[c].hash,
                            rs@[c].path@,
                        );
                    }
                }
            }
            assert forall|i: int| 0 <= i < ki + 1 implies #[trigger] has_position(ord@, i) by {
                if i == ki {
                    assert(ord@[ti] == i);
                } else {
                    assert(has_position(old_ord, i));
                    let u0 = choose|u: int| 0 <= u < ki && old_ord[u] == i;
                    if u0 < ti {
                        assert(ord@[u0] == i);
                    } else {
                        assert(ord@[u0 + 1] == i);
                    }
                }
            }
            assert forall|u: int| 0 <= u < ki + 1 implies (#[trigger] ord@[u]) < ki + 1 by {
                if u < ti {
                    assert(ord@[u] == old_ord[u]);
                } else if u > ti {
                    assert(ord@[u] == old_ord[u - 1]);
                }
            }
        }
        k = k + 1;
    }
    ord
}

/// The rows for the positions of `ord` whose record shares its digest with a
/// neighbour, numbered by digest; `src` gives each row's position in `ord`.
fn select_rows(rs: &Vec<FileRecord>, ord: &Vec<usize>) -> (r: (Vec<DuplicateEntry>, Ghost<Seq<int>>))
    requires
        sorted_positions(rs@, ord@, rs@.len() as int),
    ensures
        ({
            let rows = r.0@;
            let src = r.1@;
            let n = rs@.len() as int;
            &&& sorted_positions(rs@, ord@, n)
            &&& rows.len() == src.len()
            &&& forall|a: int| 0 <= a < src.len() ==> 0 <= #[trigger] src[a] < n
            &&& forall|a: int, b: int| 0 <= a < b < src.len() ==> #[trigger] src[a] < #[trigger] src[b]
            &&& forall|a: int|
                0 <= a < src.len() ==> (#[trigger] rows[a]).path@ == rs@[ord@[src[a]] as int].path@
                    && rows[a].hash == rs@[ord@[src[a]] as int].hash && rows[a].mtime
                    == rs@[ord@[src[a]] as int].mtime && dup_at(rs@, ord@, src[a])
            &&& forall|u: int|
                0 <= u < n && dup_at(rs@, ord@, u) ==> exists|a: int|
                    0 <= a < src.len() && #[trigger] src[a] == u
            &&& groups_numbered(rows)
        }),
{
    let n = rs.len();
    let mut rows: Vec<DuplicateEntry> = Vec::new();
    let ghost mut src: Seq<int> = Seq::empty();
    let mut group: u64 = 0;
    let mut t: usize = 0;
    while t < n
        invariant
            n == rs@.len(),
            sorted_positions(rs@, ord@, n as int),
            t <= n,
            rows@.len() == src.len(),
            rows@.len() <= t,
            forall|a: int| 0 <= a < src.len() ==> 0 <= #[trigger] src[a] < t,
            forall|a: int, b: int| 0 <= a < b < src.len() ==> #[trigger] src[a] < #[trigger] src[b],
            forall|a: int|
                0 <= a < src.len() ==> (#[trigger] rows@[a]).path@ == rs@[ord@[src[a]] as int].path@
                    && rows@[a].hash == rs@[ord@[src[a]] as int].hash && rows@[a].mtime
                    == rs@[ord@[src[a]] as int].mtime && dup_at(rs@, ord@, src[a]),
            forall|u: int|
                0 <= u < t && dup_at(rs@, ord@, u) ==> exists|a: int|
                    0 <= a < src.len() && #[trigger] src[a] == u,
            groups_numbered(rows@),
            rows@.len() > 0 ==> group == rows@.last().group,
            group <= rows@.len(),
        decreases n - t,
    {
        let cur = &rs[ord[t]];
        let ghost src_pre = src;
        let shared = (t > 0 && rs[ord[t - 1]].hash == cur.hash) || (t + 1 < n && rs[ord[t
            + 1]].hash == cur.hash);
        if shared {
            if rows.len() == 0 || rows[rows.len() - 1].hash != cur.hash {
                group = group + 1;
            }
            let ghost pre = rows@;
            rows.push(DuplicateEntry { group, path: cur.path.clone(), mtime: cur.mtime, hash: cur.hash });
            proof {
                src = src.push(t as int);
                assert(rows@[pre.len() as int] == rows@.last());
                assert forall|a: int| 0 <= a < pre.len() implies rows@[a] == pre[a] by {}
            }
        }
        proof {
            assert forall|u: int| 0 <= u < t + 1 && dup_at(rs@, ord@, u) implies exists|a: int|
                0 <= a < src.len() && #[trigger] src[a] == u by {
                if u == t {
                    assert(src[src.len() - 1] == u);
                } else {
                    let a = choose|a: int| 0 <= a < src_pre.len() && #[trigger] src_pre[a] == u;
                    assert(src[a] == u);
                }
            }
        }
        t = t + 1;
    }
    (rows, Ghost(src))
}

/// The rows selected from a sorted order of an index's records form the
/// index's duplicate report.
proof fn lemma_selected_rows_report(
    m: Map<Seq<char>, FileMeta>,
    rs: Seq<FileRecord>,
    ord: Seq<usize>,
    src: Seq<int>,
    rows: Seq<DuplicateEntry>,
)
    requires
        forall|i: int, j: int| 0 <= i < j < rs.len() ==> rs[i].path@ != rs[j].path@,
        forall|i: int|
            0 <= i < rs.len() ==> #[trigger] m.contains_key(rs[i].path@) && m[rs[i].path@]
                == rs[i].meta(),
        forall|p: Seq<char>|
            #[trigger] m.contains_key(p) ==> exists|i: int| 0 <= i < rs.len() && rs[i].path@ == p,
        sorted_positions(rs, ord, rs.len() as int),
        rows.len() == src.len(),
        forall|a: int| 0 <= a < src.len() ==> 0 <= #[trigger] src[a] < rs.len(),
        forall|a: int, b: int| 0 <= a < b < src.len() ==> #[trigger] src[a] < #[trigger] src[b],
        forall|a: int|
            0 <= a < src.len() ==> (#[trigger] rows[a]).path@ == rs[ord[src[a]] as int].path@
                && rows[a].hash == rs[ord[src[a]] as int].hash && rows[a].mtime
                == rs[ord[src[a]] as int].mtime && dup_at(rs, ord, src[a]),
        forall|u: int|
            0 <= u < rs.len() && dup_at(rs, ord, u) ==> exists|a: int|
                0 <= a < src.len() && #[trigger] src[a] == u,
        groups_numbered(rows),
    ensures
        is_duplicate_report(m, rows),
{
    let n = rs.len();
    let r = rows;
        // every row is a duplicated entry of the index
        assert forall|a: int| 0 <= a < r.len() implies m.contains_key((#[trigger] r[a]).path@)
            && m[r[a].path@].hash == r[a].hash && m[r[a].path@].mtime == r[a].mtime
            && is_duplicated(m, r[a].hash) by {
            let u = src[a];
            assert(r[a] == rows[a]);
            assert(0 <= u < n);
            assert(rows[a].path@ == rs[ord[src[a]] as int].path@);
            assert(rows[a].hash == rs[ord[src[a]] as int].hash);
            assert(dup_at(rs, ord, u));
            let x = ord[u] as int;
            let y = if u > 0 && rs[ord[u - 1] as int].hash == rs[x].hash {
                ord[u - 1] as int
            } else {
                ord[u + 1] as int
            };
            if u > 0 && rs[ord[u - 1] as int].hash == rs[x].hash {
                assert(rec_lt(rs, ord[u - 1] as int, ord[u] as int));
            } else {
                assert(rec_lt(rs, ord[u] as int, ord[u + 1] as int));
            }
            lemma_key_lt_properties(rs[x].hash, rs[x].path@, rs[x].hash, rs[x].path@, rs[x].hash, rs[x].path@);
            assert(m.contains_key(rs[x].path@));
            assert(m.contains_key(rs[y].path@));
            assert(rs[x].path@ != rs[y].path@);
        }
        // every duplicated entry of the index has a row
        assert forall|p: Seq<char>| #[trigger] m.contains_key(p) && is_duplicated(m, m[p].hash)
            implies exists|a: int| 0 <= a < r.len() && r[a].path@ == p by {
            let x = choose|x: int| 0 <= x < rs.len() && rs[x].path@ == p;
            assert(has_position(ord, x));
            let u = choose|u: int| 0 <= u < n && ord[u] == x;
            let h = m[p].hash;
            let (p1, p2) = choose|p1: Seq<char>, p2: Seq<char>|
                p1 != p2 && m.contains_key(p1) && m.contains_key(p2) && m[p1].hash == h
                    && m[p2].hash == h;
            let q = if p1 != p { p1 } else { p2 };
            let y = choose|y: int| 0 <= y < rs.len() && rs[y].path@ == q;
            assert(has_position(ord, y));
            let w = choose|w: int| 0 <= w < n && ord[w] == y;
            assert(m[rs[x].path@] == rs[x].meta());
            assert(m[rs[y].path@] == rs[y].meta());
            assert(rs[x].hash == rs[y].hash);
            assert(w != u);
            if w > u {
                assert(rec_lt(rs, ord[u] as int, ord[u + 1] as int));
                if w > u + 1 {
                    assert(rec_lt(rs, ord[u + 1] as int, ord[w] as int));
                }
                assert(dup_at(rs, ord, u));
            } else {
                assert(rec_lt(rs, ord[u - 1] as int, ord[u] as int));
                if w < u - 1 {
                    assert(rec_lt(rs, ord[w] as int, ord[u - 1] as int));
                }
                assert(dup_at(rs, ord, u));
            }
            let a = choose|a: int| 0 <= a < src.len() && #[trigger] src[a] == u;
            assert(r[a].path@ == p);
        }
        assert forall|a: int, b: int| 0 <= a < b < r.len() implies key_lt(
            r[a].hash,
            r[a].path@,
            r[b].hash,
            r[b].path@,
        ) by {
            assert(src[a] < src[b]);
            assert(rec_lt(rs, ord[src[a]] as int, ord[src[b]] as int));
            assert(r[a] == rows[a] && r[b] == rows[b]);
        }
}

impl FileIndex {
    /// The duplicate report of the index: every file whose digest another
    /// path shares, ordered by digest and then by path, with group numbers
    /// assigned in that order.
    pub fn duplicate_rows(&self) -> (rows: Vec<DuplicateEntry>)
        requires
            self.wf(),
        ensures
            is_duplicate_report(self@, rows@),
    {
        proof {
            self.lemma_entries_match_view();
        }
        let rs = self.records();
        let n = rs.len();
        let mut keys: Vec<Vec<char>> = Vec::new();
        let mut i: usize = 0;
        while i < n
            invariant
                n == rs@.len(),
                i <= n,
                keys@.len() == i,
                forall|j: int| 0 <= j < i ==> (#[trigger] keys@[j])@ == rs@[j].path@,
            decreases n - i,
        {
            keys.push(chars_of(&rs[i].path));
            i = i + 1;
        }
        let ord = sort_positions(rs, &keys);
        let (rows, src) = select_rows(rs, &ord);
        proof {
            assert forall|i: int| 0 <= i < rs@.len() implies #[trigger] self@.contains_key(
                rs@[i].path@,
            ) && self@[rs@[i].path@] == rs@[i].meta() by {
                assert(self.entries()[i] == rs@[i]);
                assert(self@.contains_key(self.entries()[i].path@));
            }
            lemma_selected_rows_report(self@, rs@, ord@, src@, rows@);
        }
        rows
    }
}

} // verus!
