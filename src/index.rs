//! The index of scanned files: one record per path, the latest insert wins.

use vstd::prelude::*;

verus! {

/// What is recorded about a file besides its path.
#[derive(Clone, Copy, Debug, PartialEq, Eq, Structural)]
pub struct FileMeta {
    /// Length in bytes at scan time.
    pub size: u64,
    /// Last modification, in seconds since the Unix epoch (UTC).
    pub mtime: i64,
    /// Digest of the content.
    pub hash: u64,
}

/// One scanned regular file.
#[derive(Clone, Debug)]
pub struct FileRecord {
    pub path: String,
    pub size: u64,
    pub mtime: i64,
    pub hash: u64,
}

impl FileRecord {
    pub open spec fn meta(&self) -> FileMeta {
        FileMeta { size: self.size, mtime: self.mtime, hash: self.hash }
    }
}

/// The records of a scan, keyed by path; inserting a path that is already
/// present replaces its record.
pub struct FileIndex {
    records: Vec<FileRecord>,
    model: Ghost<Map<Seq<char>, FileMeta>>,
}

impl View for FileIndex {
    type V = Map<Seq<char>, FileMeta>;

    closed spec fn view(&self) -> Map<Seq<char>, FileMeta> {
        self.model@
    }
}

/// The paths of a list of records, in order.
pub open spec fn paths_of(records: Seq<FileRecord>) -> Seq<Seq<char>> {
    records.map_values(|r: FileRecord| r.path@)
}

impl FileIndex {
    /// The stored records, each path once, agree with the map that is the
    /// index's view.
    pub closed spec fn wf(&self) -> bool {
        &&& forall|i: int, j: int|
            0 <= i < j < self.records@.len() ==> self.records@[i].path@
                != self.records@[j].path@
        &&& forall|i: int|
            0 <= i < self.records@.len() ==> #[trigger] self.model@.contains_key(
                self.records@[i].path@,
            ) && self.model@[self.records@[i].path@] == self.records@[i].meta()
        &&& forall|p: Seq<char>|
            #[trigger] self.model@.contains_key(p) ==> exists|i: int|
                0 <= i < self.records@.len() && self.records@[i].path@ == p
    }

    /// The stored records; their paths are pairwise distinct.
    pub closed spec fn entries(&self) -> Seq<FileRecord> {
        self.records@
    }

    /// The stored records are exactly the index's entries, one per path.
    pub proof fn lemma_entries_match_view(&self)
        requires
            self.wf(),
        ensures
            forall|i: int, j: int|
                0 <= i < j < self.entries().len() ==> self.entries()[i].path@
                    != self.entries()[j].path@,
            forall|i: int|
                0 <= i < self.entries().len() ==> #[trigger] self@.contains_key(
                    self.entries()[i].path@,
                ) && self@[self.entries()[i].path@] == self.entries()[i].meta(),
            forall|p: Seq<char>|
                #[trigger] self@.contains_key(p) ==> exists|i: int|
                    0 <= i < self.entries().len() && self.entries()[i].path@ == p,
            self@.dom() == paths_of(self.entries()).to_set(),
            self@.dom().len() == self.entries().len(),
    {
        let ps = paths_of(self.records@);
        assert forall|p: Seq<char>| #[trigger] self@.contains_key(p) implies exists|i: int|
            0 <= i < self.entries().len() && self.entries()[i].path@ == p by {
            assert(self.model@.contains_key(p));
            let i = choose|i: int| 0 <= i < self.records@.len() && self.records@[i].path@ == p;
            assert(self.entries()[i].path@ == p);
        }
        assert(self@.dom() =~= ps.to_set()) by {
            assert forall|p: Seq<char>| self@.dom().contains(p) implies ps.to_set().contains(p) by {
                let i = choose|i: int| 0 <= i < self.records@.len() && self.records@[i].path@ == p;
                assert(ps[i] == p);
            }
            assert forall|p: Seq<char>| ps.to_set().contains(p) implies self@.dom().contains(p) by {
                let i = choose|i: int| 0 <= i < ps.len() && ps[i] == p;
                assert(self.model@.contains_key(self.records@[i].path@));
            }
        }
        assert(ps.no_duplicates()) by {
            assert forall|i: int, j: int| 0 <= i < ps.len() && 0 <= j < ps.len() && i != j
                implies ps[i] != ps[j] by {
                if i < j {
                } else {
                }
            }
        }
        ps.unique_seq_to_set();
    }

    /// An empty index.
    pub fn new() -> (r: FileIndex)
        ensures
            r.wf(),
            r@ == Map::<Seq<char>, FileMeta>::empty(),
    {
        FileIndex { records: Vec::new(), model: Ghost(Map::empty()) }
    }

    /// The position of the record for `path`, if there is one.
    fn position_of(&self, path: &String) -> (r: Option<usize>)
        requires
            self.wf(),
        ensures
            match r {
                Some(i) => i < self.records@.len() && self.records@[i as int].path@ == path@,
                None => !self@.contains_key(path@),
            },
    {
        let mut i: usize = 0;
        while i < self.records.len()
            invariant
                self.wf(),
                i <= self.records@.len(),
                forall|k: int| 0 <= k < i ==> self.records@[k].path@ != path@,
            decreases self.records@.len() - i,
        {
            if self.records[i].path == *path {
                return Some(i);
            }
            i = i + 1;
        }
        None
    }

    /// Inserts `rec` under its path, replacing any record already there.
    pub fn insert(&mut self, rec: FileRecord)
        requires
            old(self).wf(),
        ensures
            final(self).wf(),
            final(self)@ == old(self)@.insert(rec.path@, rec.meta()),
    {
        let ghost key = rec.path@;
        let ghost meta = rec.meta();
        let ghost pre = self.records@;
        match self.position_of(&rec.path) {
            Some(i) => {
                self.records.set(i, rec);
                self.model = Ghost(self.model@.insert(key, meta));
                assert forall|p: Seq<char>| #[trigger] self.model@.contains_key(p) implies exists|
                    k: int,
                | 0 <= k < self.records@.len() && self.records@[k].path@ == p by {
                    if p != key {
                        let k = choose|k: int| 0 <= k < pre.len() && pre[k].path@ == p;
                        assert(self.records@[k].path@ == p);
                    } else {
                        assert(self.records@[i as int].path@ == p);
                    }
                }
            },
            None => {
                self.records.push(rec);
                self.model = Ghost(self.model@.insert(key, meta));
                assert forall|p: Seq<char>| #[trigger] self.model@.contains_key(p) implies exists|
                    k: int,
                | 0 <= k < self.records@.len() && self.records@[k].path@ == p by {
                    if p != key {
                        let k = choose|k: int| 0 <= k < pre.len() && pre[k].path@ == p;
                        assert(self.records@[k].path@ == p);
                    } else {
                        assert(self.records@[pre.len() as int].path@ == p);
                    }
                }
                assert forall|k: int| 0 <= k < pre.len() implies pre[k].path@ != key by {
                    assert(self.model@.contains_key(pre[k].path@));
                }
            },
        }
    }

    /// The number of distinct paths in the index.
    pub fn len(&self) -> (r: usize)
        requires
            self.wf(),
        ensures
            r == self@.dom().len(),
    {
        proof {
            self.lemma_entries_match_view();
        }
        self.records.len()
    }

    /// The record stored for `path`, if any.
    pub fn lookup(&self, path: &String) -> (r: Option<FileMeta>)
        requires
            self.wf(),
        ensures
            r == (if self@.contains_key(path@) {
                Some(self@[path@])
            } else {
                None::<FileMeta>
            }),
    {
        match self.position_of(path) {
            Some(i) => {
                let rec = &self.records[i];
                Some(FileMeta { size: rec.size, mtime: rec.mtime, hash: rec.hash })
            },
            None => None,
        }
    }

    /// The stored records, one per path, in no particular order.
    pub fn records(&self) -> (r: &Vec<FileRecord>)
        ensures
            r@ == self.entries(),
    {
        &self.records
    }
}

/// Scanning a path again replaces what the earlier scan recorded for it: the
/// index keeps one entry per path, holding the later metadata.
pub proof fn lemma_rescan_keeps_latest(
    m: Map<Seq<char>, FileMeta>,
    path: Seq<char>,
    first: FileMeta,
    second: FileMeta,
)
    ensures
        m.insert(path, first).insert(path, second) == m.insert(path, second),
        m.insert(path, first).insert(path, second).dom() == m.insert(path, first).dom(),
        m.insert(path, first).insert(path, second)[path] == second,
{
    assert(m.insert(path, first).insert(path, second) =~= m.insert(path, second));
    assert(m.insert(path, first).insert(path, second).dom() =~= m.insert(path, first).dom());
}

} // verus!
