//! Trigram content index: for every three-byte substring, the files that
//! contain it. A search for a literal needle only has to look at the files
//! that hold every trigram of the needle.
//!
//! Reading files, their stamps and the on-disk form of the index are left to
//! the caller; this module holds the index itself and every decision taken
//! on it.

use std::collections::BTreeMap;
use vstd::prelude::*;

verus! {

broadcast use vstd::std_specs::btree::group_btree_axioms, vstd::laws_cmp::group_laws_cmp;

/// Bytes of a file that are examined for a NUL before indexing it.
pub const BINARY_CHECK_LEN: usize = 8192;

/// Modification time and size of a file, as recorded when it was indexed.
#[derive(Debug, Clone, Copy, PartialEq, Eq, Structural)]
pub struct FileStamp {
    pub mtime_s: i64,
    pub mtime_ns: u32,
    pub size: u64,
}

/// An indexed file.
pub struct FileRecord {
    pub path: Vec<u8>,
    pub mtime_s: i64,
    pub mtime_ns: u32,
    pub size: u64,
}

impl FileRecord {
    /// The stamp the file had when it was indexed.
    pub open spec fn stamp(&self) -> FileStamp {
        FileStamp { mtime_s: self.mtime_s, mtime_ns: self.mtime_ns, size: self.size }
    }
}

/// Trigram index mapping three-byte substrings to the ids of the files that
/// contain them. A file's id is its position in the file list; every
/// posting list is strictly increasing.
pub struct TrigramIndex {
    files: Vec<FileRecord>,
    postings: BTreeMap<(u8, u8, u8), Vec<u32>>,
    root: Vec<u8>,
}

/// The trigram of a three-byte array.
pub open spec fn trigram_key(t: [u8; 3]) -> (u8, u8, u8) {
    (t@[0], t@[1], t@[2])
}

/// The trigrams of a query.
pub open spec fn trigram_keys(ts: Seq<[u8; 3]>) -> Seq<(u8, u8, u8)> {
    ts.map_values(|t: [u8; 3]| trigram_key(t))
}

/// The trigram starting at position `i` of `d`.
pub open spec fn trigram_at(d: Seq<u8>, i: int) -> (u8, u8, u8) {
    (d[i], d[i + 1], d[i + 2])
}

/// `d` has `t` at a position before `n`.
pub open spec fn has_trigram_before(d: Seq<u8>, t: (u8, u8, u8), n: int) -> bool {
    exists|i: int| 0 <= i < n && i + 3 <= d.len() && #[trigger] trigram_at(d, i) == t
}

/// `d` contains the trigram `t`.
pub open spec fn has_trigram(d: Seq<u8>, t: (u8, u8, u8)) -> bool {
    has_trigram_before(d, t, d.len() as int)
}

/// A NUL byte occurs among the first bytes of `d`, which marks the file as
/// binary and keeps it out of the index.
pub open spec fn binary_head(d: Seq<u8>) -> bool {
    exists|i: int| 0 <= i < d.len() && i < BINARY_CHECK_LEN && d[i] == 0u8
}

/// Every element is smaller than the next.
pub open spec fn strictly_increasing(l: Seq<u32>) -> bool {
    forall|i: int, j: int| 0 <= i < j < l.len() ==> l[i] < l[j]
}

/// A valid posting list for `n` files: increasing file ids below `n`.
pub open spec fn posting_list_ok(l: Seq<u32>, n: int) -> bool {
    &&& strictly_increasing(l)
    &&& forall|i: int| 0 <= i < l.len() ==> l[i] < n
}

/// The list recorded for `t`, or the empty list.
pub open spec fn list_of(m: Map<(u8, u8, u8), Vec<u32>>, t: (u8, u8, u8)) -> Seq<u32> {
    if m.contains_key(t) {
        m[t]@
    } else {
        Seq::empty()
    }
}

/// Whether a file whose stamp is now `current` (`None` when it cannot be
/// read) has changed since it was recorded.
pub open spec fn is_stale(r: FileRecord, current: Option<FileStamp>) -> bool {
    match current {
        Some(s) => s != r.stamp(),
        None => true,
    }
}

/// The paths of the files that changed, in index order.
pub open spec fn stale_paths(rs: Seq<FileRecord>, current: Seq<Option<FileStamp>>) -> Seq<Seq<u8>>
    decreases rs.len(),
{
    if rs.len() == 0 {
        Seq::empty()
    } else {
        let k = rs.len() - 1;
        stale_paths(rs.drop_last(), current) + if is_stale(rs[k], current[k]) {
            seq![rs[k].path@]
        } else {
            Seq::empty()
        }
    }
}

/// Law: the stale paths are those of the recorded files that are gone or
/// whose stamp now differs from the recorded one in any field (time in
/// seconds, nanoseconds or size): each such file is listed, each listed
/// path is such a file's, and when every file keeps its stamp none is.
pub proof fn lemma_stale_exactly_changed(rs: Seq<FileRecord>, current: Seq<Option<FileStamp>>)
    requires
        current.len() == rs.len(),
    ensures
        forall|i: int| 0 <= i < rs.len() && current[i] != Some(
            FileStamp { mtime_s: rs[i].mtime_s, mtime_ns: rs[i].mtime_ns, size: rs[i].size },
        ) ==> #[trigger] stale_paths(rs, current).contains(rs[i].path@),
        forall|j: int| 0 <= j < stale_paths(rs, current).len() ==> exists|i: int| 0 <= i < rs.len()
            && rs[i].path@ == #[trigger] stale_paths(rs, current)[j] && current[i] != Some(
                FileStamp { mtime_s: rs[i].mtime_s, mtime_ns: rs[i].mtime_ns, size: rs[i].size },
            ),
        (forall|i: int| 0 <= i < rs.len() ==> current[i] == Some(
            FileStamp { mtime_s: rs[i].mtime_s, mtime_ns: rs[i].mtime_ns, size: rs[i].size },
        )) ==> stale_paths(rs, current).len() == 0,
    decreases rs.len(),
{
    if rs.len() > 0 {
        let k = rs.len() - 1;
        let pre = rs.drop_last();
        lemma_stale_exactly_changed(pre, current.drop_last());
        lemma_stale_paths_prefix(pre, current, current.drop_last());
        let sp = stale_paths(rs, current);
        let spre = stale_paths(pre, current);
        assert forall|i: int| 0 <= i < rs.len() && current[i] != Some(
            FileStamp { mtime_s: rs[i].mtime_s, mtime_ns: rs[i].mtime_ns, size: rs[i].size },
        ) implies #[trigger] sp.contains(rs[i].path@) by {
            if i < k {
                assert(pre[i] == rs[i]);
                assert(current.drop_last()[i] == current[i]);
                assert(spre.contains(pre[i].path@));
                let w = choose|w: int| 0 <= w < spre.len() && spre[w] == pre[i].path@;
                assert(sp[w] == spre[w]);
            } else {
                assert(is_stale(rs[k], current[k]));
                assert(sp[sp.len() - 1] == rs[k].path@);
            }
        }
        assert forall|j: int| 0 <= j < sp.len() implies exists|i: int| 0 <= i < rs.len()
            && rs[i].path@ == #[trigger] sp[j] && current[i] != Some(
                FileStamp { mtime_s: rs[i].mtime_s, mtime_ns: rs[i].mtime_ns, size: rs[i].size },
            ) by {
            if j < spre.len() {
                assert(sp[j] == spre[j]);
                let i = choose|i: int| 0 <= i < pre.len() && pre[i].path@ == #[trigger] spre[j]
                    && current.drop_last()[i] != Some(
                    FileStamp { mtime_s: pre[i].mtime_s, mtime_ns: pre[i].mtime_ns, size: pre[i].size });
                assert(rs[i] == pre[i]);
                assert(current[i] == current.drop_last()[i]);
            } else {
                assert(is_stale(rs[k], current[k]));
                assert(sp[j] == rs[k].path@);
            }
        }
        if forall|i: int| 0 <= i < rs.len() ==> current[i] == Some(
            FileStamp { mtime_s: rs[i].mtime_s, mtime_ns: rs[i].mtime_ns, size: rs[i].size },
        ) {
            assert forall|i: int| 0 <= i < pre.len() implies current.drop_last()[i] == Some(
                FileStamp { mtime_s: pre[i].mtime_s, mtime_ns: pre[i].mtime_ns, size: pre[i].size },
            ) by {
                assert(pre[i] == rs[i]);
                assert(current[i] == current.drop_last()[i]);
            }
            assert(!is_stale(rs[k], current[k]));
        }
    }
}

/// The stale paths of some records depend only on the stamps given for them.
proof fn lemma_stale_paths_prefix(rs: Seq<FileRecord>, a: Seq<Option<FileStamp>>, b: Seq<Option<FileStamp>>)
    requires
        rs.len() <= a.len(),
        rs.len() <= b.len(),
        forall|i: int| 0 <= i < rs.len() ==> a[i] == b[i],
    ensures
        stale_paths(rs, a) == stale_paths(rs, b),
    decreases rs.len(),
{
    if rs.len() > 0 {
        lemma_stale_paths_prefix(rs.drop_last(), a, b);
    }
}

/// The views of a list of paths.
pub open spec fn path_views(v: Seq<Vec<u8>>) -> Seq<Seq<u8>> {
    v.map_values(|p: Vec<u8>| p@)
}

/// The map holding each pair's list under its trigram.
pub open spec fn pairs_map(ps: Seq<((u8, u8, u8), Vec<u32>)>) -> Map<(u8, u8, u8), Seq<u32>>
    decreases ps.len(),
{
    if ps.len() == 0 {
        Map::empty()
    } else {
        pairs_map(ps.drop_last()).insert(ps.last().0, ps.last().1@)
    }
}

/// The posting lists as sequences.
pub open spec fn lists_view(m: Map<(u8, u8, u8), Vec<u32>>) -> Map<(u8, u8, u8), Seq<u32>> {
    m.map_values(|v: Vec<u32>| v@)
}

/// Stored posting lists that make a valid index for `n` files: each list
/// valid, each trigram once.
pub open spec fn parts_ok(ps: Seq<((u8, u8, u8), Vec<u32>)>, n: int) -> bool {
    &&& forall|i: int| 0 <= i < ps.len() ==> posting_list_ok(#[trigger] ps[i].1@, n)
    &&& forall|i: int, j: int| 0 <= i < j < ps.len() ==> #[trigger] ps[i].0 != #[trigger] ps[j].0
}

/// The trigrams of a map built from pairs are those of the pairs.
pub proof fn lemma_pairs_map_keys(ps: Seq<((u8, u8, u8), Vec<u32>)>)
    ensures
        forall|k: (u8, u8, u8)| #[trigger] pairs_map(ps).contains_key(k)
            <==> exists|j: int| 0 <= j < ps.len() && #[trigger] ps[j].0 == k,
    decreases ps.len(),
{
    if ps.len() > 0 {
        let pre = ps.drop_last();
        lemma_pairs_map_keys(pre);
        assert(pairs_map(ps) == pairs_map(pre).insert(ps.last().0, ps.last().1@));
        assert forall|k: (u8, u8, u8)| #[trigger] pairs_map(ps).contains_key(k)
            <==> exists|j: int| 0 <= j < ps.len() && #[trigger] ps[j].0 == k by {
            if pairs_map(ps).contains_key(k) && k != ps.last().0 {
                assert(pairs_map(pre).contains_key(k));
                let j = choose|j: int| 0 <= j < pre.len() && #[trigger] pre[j].0 == k;
                assert(ps[j].0 == k);
            }
            if exists|j: int| 0 <= j < ps.len() && #[trigger] ps[j].0 == k {
                let j = choose|j: int| 0 <= j < ps.len() && #[trigger] ps[j].0 == k;
                if j < pre.len() {
                    assert(pre[j].0 == k);
                }
            }
        }
    }
}

/// Each list of a map built from valid pairs is valid.
pub proof fn lemma_pairs_map_valid(ps: Seq<((u8, u8, u8), Vec<u32>)>, n: int)
    requires
        parts_ok(ps, n),
    ensures
        forall|k: (u8, u8, u8)| #[trigger] pairs_map(ps).contains_key(k)
            ==> posting_list_ok(pairs_map(ps)[k], n),
    decreases ps.len(),
{
    if ps.len() > 0 {
        let pre = ps.drop_last();
        assert(parts_ok(pre, n)) by {
            assert forall|i: int| 0 <= i < pre.len() implies posting_list_ok(#[trigger] pre[i].1@, n) by {
                assert(pre[i] == ps[i]);
            }
            assert forall|i: int, j: int| 0 <= i < j < pre.len() implies #[trigger] pre[i].0 != #[trigger] pre[j].0 by {
                assert(pre[i] == ps[i] && pre[j] == ps[j]);
            }
        }
        lemma_pairs_map_valid(pre, n);
        assert forall|k: (u8, u8, u8)| #[trigger] pairs_map(ps).contains_key(k)
            implies posting_list_ok(pairs_map(ps)[k], n) by {
            if k == ps.last().0 {
                assert(posting_list_ok(ps[ps.len() - 1].1@, n));
            } else {
                assert(pairs_map(pre).contains_key(k));
            }
        }
    }
}

impl TrigramIndex {
    /// The indexed files, by id.
    pub closed spec fn records(&self) -> Seq<FileRecord> {
        self.files@
    }

    /// The posting lists.
    pub closed spec fn posting_map(&self) -> Map<(u8, u8, u8), Vec<u32>> {
        self.postings@
    }

    /// The root directory the index was built for.
    pub closed spec fn root_path(&self) -> Seq<u8> {
        self.root@
    }

    /// Every posting list is valid for the indexed files.
    pub open spec fn wf(&self) -> bool {
        forall|t: (u8, u8, u8)| #[trigger] self.posting_map().contains_key(t)
            ==> posting_list_ok(self.posting_map()[t]@, self.records().len() as int)
    }

    /// The file with id `id` is listed under `t`.
    pub open spec fn indexed(&self, id: int, t: (u8, u8, u8)) -> bool {
        &&& 0 <= id <= u32::MAX
        &&& self.posting_map().contains_key(t)
        &&& self.posting_map()[t]@.contains(id as u32)
    }

    /// The file with id `id` is listed under every trigram of `keys`.
    pub open spec fn is_candidate(&self, id: int, keys: Seq<(u8, u8, u8)>) -> bool {
        forall|j: int| 0 <= j < keys.len() ==> #[trigger] self.indexed(id, keys[j])
    }

    /// The ids below `b` of the files listed under every trigram of `keys`,
    /// in increasing order.
    pub open spec fn candidates_below(&self, keys: Seq<(u8, u8, u8)>, b: int) -> Seq<int>
        decreases b,
    {
        if b <= 0 {
            Seq::empty()
        } else {
            self.candidates_below(keys, b - 1) + if self.is_candidate(b - 1, keys) {
                seq![b - 1]
            } else {
                Seq::empty()
            }
        }
    }

    /// The ids of the files listed under every trigram of `keys`, in
    /// increasing order; every file when `keys` is empty.
    pub open spec fn candidate_ids(&self, keys: Seq<(u8, u8, u8)>) -> Seq<int> {
        self.candidates_below(keys, self.records().len() as int)
    }

    /// The paths of the candidate files.
    pub open spec fn candidate_paths(&self, keys: Seq<(u8, u8, u8)>) -> Seq<Seq<u8>> {
        self.candidate_ids(keys).map_values(|id: int| self.records()[id].path@)
    }

    /// An empty index for `root`.
    pub fn new(root: Vec<u8>) -> (r: Self)
        ensures
            r.wf(),
            r.records().len() == 0,
            r.posting_map() == Map::<(u8, u8, u8), Vec<u32>>::empty(),
            r.root_path() == root@,
    {
        TrigramIndex { files: Vec::new(), postings: BTreeMap::new(), root }
    }

    /// Number of indexed files.
    pub fn file_count(&self) -> (r: usize)
        ensures
            r == self.records().len(),
    {
        self.files.len()
    }

    /// The indexed files.
    pub fn files(&self) -> (r: &Vec<FileRecord>)
        ensures
            r@ == self.records(),
    {
        &self.files
    }

    /// The posting lists.
    pub fn postings(&self) -> (r: &BTreeMap<(u8, u8, u8), Vec<u32>>)
        ensures
            r@ == self.posting_map(),
    {
        &self.postings
    }

    /// The root directory the index was built for.
    pub fn root(&self) -> (r: &Vec<u8>)
        ensures
            r@ == self.root_path(),
    {
        &self.root
    }

    /// Returns the paths of the files that contain all the given trigrams,
    /// each once, in index order. If `trigrams` is empty, returns all
    /// indexed file paths.
    pub fn candidate_files(&self, trigrams: &[[u8; 3]]) -> (r: Vec<Vec<u8>>)
        requires
            self.wf(),
        ensures
            path_views(r@) == self.candidate_paths(trigram_keys(trigrams@)),
    {
        let ghost keys = trigram_keys(trigrams@);
        let n = self.files.len();
        let nt = trigrams.len();
        let mut out: Vec<Vec<u8>> = Vec::new();
        if nt == 0 {
            for id in 0..n
                invariant
                    n == self.records().len(),
                    keys.len() == 0,
                    path_views(out@) == self.candidates_below(keys, id as int).map_values(
                        |i: int| self.records()[i].path@,
                    ),
            {
                let ghost before = self.candidates_below(keys, id as int);
                let ghost old_out = out@;
                let p = vstd::slice::slice_to_vec(self.files[id].path.as_slice());
                assert(p@ == self.records()[id as int].path@);
                out.push(p);
                assert(path_views(out@) == path_views(old_out).push(p@));
                proof {
                    assert(self.is_candidate(id as int, keys));
                    assert(self.candidates_below(keys, id + 1) == before.push(id as int));
                }
                assert(path_views(out@) =~= self.candidates_below(keys, id + 1).map_values(
                    |i: int| self.records()[i].path@,
                ));
            }
            return out;
        }
        // The posting list of every trigram; a trigram without one rules
        // out every file.
        let lists = match self.posting_lists(trigrams) {
            Some(l) => l,
            None => {
                proof {
                    let j = choose|j: int| 0 <= j < keys.len() && !self.posting_map().contains_key(#[trigger] keys[j]);
                    self.lemma_no_candidates(keys, j, n as int);
                }
                assert(path_views(out@) =~= self.candidate_paths(keys));
                return out;
            },
        };
        // Walk the shortest list and keep the ids found in all the others.
        let mut s: usize = 0;
        for j in 1..nt
            invariant
                nt == lists@.len(),
                s < nt,
        {
            if lists[j].len() < lists[s].len() {
                s = j;
            }
        }
        let short = lists[s];
        proof {
            assert(self.posting_map().contains_key(keys[s as int]));
        }
        let ns = short.len();
        let ghost mut bound: int = 0;
        for q in 0..ns
            invariant
                self.wf(),
                n == self.records().len(),
                nt == keys.len(),
                nt == lists@.len(),
                s < nt,
                short == lists@[s as int],
                ns == short@.len(),
                forall|p: int| 0 <= p < nt ==> #[trigger] self.posting_map().contains_key(keys[p])
                    && *lists@[p] == self.posting_map()[keys[p]],
                bound == if q == 0 { 0 } else { short@[q - 1] + 1 },
                bound <= n,
                path_views(out@) == self.candidates_below(keys, bound).map_values(
                    |i: int| self.records()[i].path@,
                ),
        {
            let id = short[q];
            assert(forall|p: int| 0 <= p < nt ==> #[trigger] self.posting_map().contains_key(keys[p])
                && *lists@[p] == self.posting_map()[keys[p]]);
            proof {
                assert(self.posting_map().contains_key(keys[s as int]));
                assert(posting_list_ok(short@, n as int));
                assert forall|x: int| bound <= x < id implies !#[trigger] self.is_candidate(x, keys) by {
                    if self.is_candidate(x, keys) {
                        assert(self.indexed(x, keys[s as int]));
                        let k = choose|k: int| 0 <= k < short@.len() && short@[k] == x as u32;
                        if k < q {
                            if q > 0 {
                                assert(short@[k] <= short@[q - 1]);
                            }
                        } else if k > q {
                            assert(short@[q as int] < short@[k]);
                        }
                    }
                }
                self.lemma_candidates_skip(keys, bound, id as int);
            }
            assert(forall|p: int| 0 <= p < nt ==> #[trigger] self.posting_map().contains_key(keys[p])
                && *lists@[p] == self.posting_map()[keys[p]]);
            let mut all = true;
            for j in 0..nt
                invariant
                    nt == lists@.len(),
                    nt == keys.len(),
                    self.wf(),
                    forall|p: int| 0 <= p < nt ==> #[trigger] self.posting_map().contains_key(keys[p])
                        && *lists@[p] == self.posting_map()[keys[p]],
                    all <==> forall|p: int| 0 <= p < j ==> #[trigger] lists@[p]@.contains(id),
            {
                proof {
                    assert(self.posting_map().contains_key(keys[j as int]));
                }
                if !sorted_contains(lists[j], id) {
                    all = false;
                }
            }
            let ghost before = self.candidates_below(keys, id as int);
            proof {
                assert(self.is_candidate(id as int, keys) == all) by {
                    if all {
                        assert forall|p: int| 0 <= p < keys.len() implies #[trigger] self.indexed(id as int, keys[p]) by {
                            assert(lists@[p]@.contains(id));
                            assert(self.posting_map().contains_key(keys[p]));
                        }
                    } else {
                        let p = choose|p: int| 0 <= p < nt && !#[trigger] lists@[p]@.contains(id);
                        assert(self.posting_map().contains_key(keys[p]));
                        assert(!self.indexed(id as int, keys[p]));
                    }
                }
            }
            let ghost old_out = out@;
            if all {
                let p = vstd::slice::slice_to_vec(self.files[id as usize].path.as_slice());
                assert(p@ == self.records()[id as int].path@);
                out.push(p);
                assert(path_views(out@) == path_views(old_out).push(p@));
            } else {
                assert(path_views(out@) == path_views(old_out));
            }
            proof {
                assert(self.candidates_below(keys, id + 1) == before + if all { seq![id as int] } else { Seq::<int>::empty() });
                bound = id + 1;
                assert(path_views(out@) =~= self.candidates_below(keys, bound).map_values(
                    |i: int| self.records()[i].path@,
                ));
            }
        }
        proof {
            assert(self.posting_map().contains_key(keys[s as int]));
            assert(posting_list_ok(short@, n as int));
            assert forall|x: int| bound <= x < n implies !#[trigger] self.is_candidate(x, keys) by {
                if self.is_candidate(x, keys) {
                    assert(self.indexed(x, keys[s as int]));
                    let k = choose|k: int| 0 <= k < short@.len() && short@[k] == x as u32;
                    assert(short@[k] <= short@[ns - 1]);
                }
            }
            self.lemma_candidates_skip(keys, bound, n as int);
        }
        out
    }

    /// Adds a file to the index, with the stamp it has now and its
    /// contents, unless a NUL byte among its first [`BINARY_CHECK_LEN`]
    /// bytes marks it as binary. Returns whether the file was added. The
    /// new file's id is the number of files indexed before it; it is added
    /// to the posting list of each distinct trigram of `data`.
    pub fn add_file(&mut self, path: Vec<u8>, stamp: FileStamp, data: &[u8]) -> (r: bool)
        requires
            old(self).wf(),
            old(self).records().len() < u32::MAX,
        ensures
            final(self).wf(),
            final(self).root_path() == old(self).root_path(),
            r == !binary_head(data@),
            !r ==> final(self).records() == old(self).records()
                && final(self).posting_map() == old(self).posting_map(),
            r ==> final(self).records() == old(self).records().push(
                FileRecord { path: path, mtime_s: stamp.mtime_s, mtime_ns: stamp.mtime_ns, size: stamp.size },
            ),
            r ==> forall|t: (u8, u8, u8)| #[trigger] final(self).posting_map().contains_key(t)
                <==> old(self).posting_map().contains_key(t) || has_trigram(data@, t),
            r ==> forall|t: (u8, u8, u8)| #[trigger] final(self).posting_map().contains_key(t)
                ==> final(self).posting_map()[t]@ == if has_trigram(data@, t) {
                    list_of(old(self).posting_map(), t).push(old(self).records().len() as u32)
                } else {
                    old(self).posting_map()[t]@
                },
            forall|id: int, t: (u8, u8, u8)| old(self).indexed(id, t) ==> #[trigger] final(self).indexed(id, t),
            r ==> forall|t: (u8, u8, u8)| has_trigram(data@, t)
                ==> #[trigger] final(self).indexed(old(self).records().len() as int, t),
            index_step(*old(self), *final(self), path@, data@),
    {
        proof { lemma_trigram_order(); }
        let n = data.len();
        let check = if n < BINARY_CHECK_LEN { n } else { BINARY_CHECK_LEN };
        if let Some(k) = memchr::memchr(0u8, &data[0..check]) {
            assert(data@[k as int] == 0u8);
            return false;
        }
        assert(!binary_head(data@)) by {
            if binary_head(data@) {
                let i = choose|i: int| 0 <= i < data@.len() && i < BINARY_CHECK_LEN && data@[i] == 0u8;
                assert(data@.subrange(0, check as int)[i] == 0u8);
            }
        }
        let ghost m0 = self.postings@;
        let ghost n0 = self.files@.len();
        let id = self.files.len() as u32;
        self.files.push(FileRecord { path, mtime_s: stamp.mtime_s, mtime_ns: stamp.mtime_ns, size: stamp.size });
        proof {
            assert forall|t: (u8, u8, u8)| #[trigger] m0.contains_key(t) implies posting_list_ok(m0[t]@, n0 as int) by {
                assert(old(self).posting_map().contains_key(t));
            }
        }
        let ghost files1 = self.files@;
        let ghost root0 = self.root@;
        assert(files1 == old(self).records().push(
            FileRecord { path: path, mtime_s: stamp.mtime_s, mtime_ns: stamp.mtime_ns, size: stamp.size }));
        let last = if n >= 3 { n - 2 } else { 0 };
        let mut i: usize = 0;
        while i < last
            invariant
                self.files@ == files1,
                self.root@ == root0,
                root0 == old(self).root_path(),
                n == data@.len(),
                last == if n >= 3 { n - 2 } else { 0 },
                i <= last,
                id == n0,
                n0 < u32::MAX,
                self.files@.len() == n0 + 1,
                forall|t: (u8, u8, u8)| #[trigger] m0.contains_key(t) ==> posting_list_ok(m0[t]@, n0 as int),
                forall|t: (u8, u8, u8)| #[trigger] self.postings@.contains_key(t)
                    <==> m0.contains_key(t) || has_trigram_before(data@, t, i as int),
                forall|t: (u8, u8, u8)| #[trigger] self.postings@.contains_key(t)
                    ==> self.postings@[t]@ == if has_trigram_before(data@, t, i as int) {
                        list_of(m0, t).push(id)
                    } else {
                        m0[t]@
                    },
            decreases n - i,
        {
            let key = (data[i], data[i + 1], data[i + 2]);
            assert(key == trigram_at(data@, i as int));
            let ghost before = self.postings@;
            let ghost seen = has_trigram_before(data@, key, i as int);
            let list = match self.postings.remove(&key) {
                Some(mut l) => {
                    assert(before.contains_key(key) && l == before[key]);
                    let len = l.len();
                    if len == 0 || l[len - 1] != id {
                        proof {
                            if seen {
                                assert(l@ == list_of(m0, key).push(id));
                                assert(l@[len - 1] == id);
                            }
                        }
                        l.push(id);
                    } else {
                        proof {
                            if !seen {
                                assert(l@ == m0[key]@);
                                assert(posting_list_ok(m0[key]@, n0 as int));
                                assert(m0[key]@[len - 1] < n0);
                            }
                        }
                    }
                    l
                },
                None => {
                    let mut l: Vec<u32> = Vec::new();
                    l.push(id);
                    l
                },
            };
            assert(list@ == list_of(m0, key).push(id));
            self.postings.insert(key, list);
            proof {
                assert(self.postings@ == before.insert(key, list));
                assert forall|t: (u8, u8, u8)| has_trigram_before(data@, t, i + 1)
                    <==> has_trigram_before(data@, t, i as int) || t == key by {
                    if t == key {
                        assert(trigram_at(data@, i as int) == t);
                    }
                    if has_trigram_before(data@, t, i + 1) {
                        let w = choose|w: int| 0 <= w < i + 1 && w + 3 <= data@.len() && #[trigger] trigram_at(data@, w) == t;
                        if w < i {
                            assert(has_trigram_before(data@, t, i as int));
                        }
                    }
                }
            }
            i = i + 1;
        }
        proof {
            assert forall|t: (u8, u8, u8)| has_trigram_before(data@, t, i as int) == has_trigram(data@, t) by {
                if has_trigram(data@, t) {
                    let w = choose|w: int| 0 <= w < data@.len() && w + 3 <= data@.len() && #[trigger] trigram_at(data@, w) == t;
                    assert(w < i);
                }
                if has_trigram_before(data@, t, i as int) {
                    let w = choose|w: int| 0 <= w < i && w + 3 <= data@.len() && #[trigger] trigram_at(data@, w) == t;
                    assert(w < data@.len());
                }
            }
            assert forall|t: (u8, u8, u8)| #[trigger] self.postings@.contains_key(t)
                implies posting_list_ok(self.postings@[t]@, (n0 + 1) as int) by {
                if has_trigram(data@, t) {
                    let l = list_of(m0, t);
                    if m0.contains_key(t) {
                        assert(posting_list_ok(m0[t]@, n0 as int));
                    }
                    assert(posting_list_ok(l, n0 as int));
                    assert(self.postings@[t]@ == l.push(id));
                } else {
                    assert(posting_list_ok(m0[t]@, n0 as int));
                }
            }
            assert forall|q: int, t: (u8, u8, u8)| old(self).indexed(q, t) implies #[trigger] self.indexed(q, t) by {
                let l0 = m0[t]@;
                let w = choose|w: int| 0 <= w < l0.len() && l0[w] == q as u32;
                assert(old(self).posting_map().contains_key(t));
                assert(m0.contains_key(t));
                assert(self.postings@.contains_key(t));
                assert(has_trigram_before(data@, t, i as int) == has_trigram(data@, t));
                if has_trigram(data@, t) {
                    assert(self.postings@[t]@ == l0.push(id));
                    assert(self.postings@[t]@[w] == q as u32);
                } else {
                    assert(self.postings@[t]@ == l0);
                }
            }
            assert forall|t: (u8, u8, u8)| has_trigram(data@, t) implies #[trigger] self.indexed(n0 as int, t) by {
                assert(has_trigram_before(data@, t, i as int) == has_trigram(data@, t));
                assert(self.postings@.contains_key(t));
                let l = self.postings@[t]@;
                assert(l == list_of(m0, t).push(id));
                assert(l[l.len() - 1] == id);
            }
            assert(self.files@.drop_last() == old(self).records());
        }
        true
    }

    /// Returns the paths of the files whose stamp has changed since they were
    /// indexed, in index order; `current` gives each file's stamp now, or
    /// `None` when the file is gone or unreadable.
    pub fn stale_files(&self, current: &[Option<FileStamp>]) -> (r: Vec<Vec<u8>>)
        requires
            current@.len() == self.records().len(),
        ensures
            path_views(r@) == stale_paths(self.records(), current@),
    {
        let n = self.files.len();
        let mut out: Vec<Vec<u8>> = Vec::new();
        assert(self.files@.take(0) == Seq::<FileRecord>::empty());
        for i in 0..n
            invariant
                n == self.files@.len(),
                current@.len() == n,
                path_views(out@) == stale_paths(self.files@.take(i as int), current@),
        {
            let rec = &self.files[i];
            let stale = match current[i] {
                Some(s) => s.mtime_s != rec.mtime_s || s.mtime_ns != rec.mtime_ns || s.size != rec.size,
                None => true,
            };
            let ghost old_out = out@;
            assert(self.files@.take(i + 1).drop_last() == self.files@.take(i as int));
            assert(self.files@.take(i + 1)[i as int] == *rec);
            assert(stale == is_stale(*rec, current@[i as int]));
            if stale {
                let p = vstd::slice::slice_to_vec(rec.path.as_slice());
                out.push(p);
                assert(path_views(out@) == path_views(old_out).push(p@));
            } else {
                assert(path_views(out@) == path_views(old_out));
            }
        }
        assert(self.files@.take(n as int) == self.files@);
        out
    }

    /// Whether so many files changed since indexing that the index should be
    /// rebuilt: more than a tenth of them.
    pub open spec fn rebuild_due(&self, current: Seq<Option<FileStamp>>) -> bool {
        self.records().len() > 0
            && stale_paths(self.records(), current).len() * 10 > self.records().len()
    }

    /// Returns true if more than a tenth of the indexed files changed.
    pub fn needs_rebuild(&self, current: &[Option<FileStamp>]) -> (r: bool)
        requires
            current@.len() == self.records().len(),
        ensures
            r == self.rebuild_due(current@),
    {
        let n = self.files.len();
        if n == 0 {
            return false;
        }
        let stale = self.stale_files(current).len();
        (stale as u128) * 10 > n as u128
    }

    /// Whether the candidate filter is worth applying: the query has
    /// trigrams, the index is fresh enough, and the candidates are fewer than
    /// nine in ten of the indexed files.
    pub open spec fn filter_applies(&self, keys: Seq<(u8, u8, u8)>, current: Seq<Option<FileStamp>>) -> bool {
        &&& keys.len() > 0
        &&& !self.rebuild_due(current)
        &&& !(self.records().len() > 0 && self.candidate_ids(keys).len() * 10 >= self.records().len() * 9)
    }

    /// The set of files a search has to read, or `None` to search every
    /// file: the candidates for the trigrams together with the files that
    /// changed since they were indexed (whose contents the index no longer
    /// describes). No filtering is done when the query has no trigrams, when
    /// the index needs a rebuild, or when nine in ten files are candidates.
    pub fn candidate_filter(&self, trigrams: &[[u8; 3]], current: &[Option<FileStamp>]) -> (r: Option<Vec<Vec<u8>>>)
        requires
            self.wf(),
            current@.len() == self.records().len(),
        ensures
            r is Some <==> self.filter_applies(trigram_keys(trigrams@), current@),
            r matches Some(v) ==> path_views(v@) == self.candidate_paths(trigram_keys(trigrams@))
                + stale_paths(self.records(), current@),
    {
        if trigrams.len() == 0 || self.needs_rebuild(current) {
            assert(trigram_keys(trigrams@).len() == trigrams@.len());
            return None;
        }
        let mut candidates = self.candidate_files(trigrams);
        assert(candidates@.len() == path_views(candidates@).len());
        assert(candidates@.len() == self.candidate_ids(trigram_keys(trigrams@)).len());
        let total = self.file_count();
        if total > 0 && (candidates.len() as u128) * 10 >= (total as u128) * 9 {
            return None;
        }
        let ghost cv = path_views(candidates@);
        let mut stale = self.stale_files(current);
        let ghost sv = path_views(stale@);
        candidates.append(&mut stale);
        assert(path_views(candidates@) =~= cv + sv);
        Some(candidates)
    }

    /// Rebuilds an index from its parts, as read back from storage. Returns
    /// `None` when a posting list is not strictly increasing, names a file
    /// that does not exist, or when a trigram occurs twice.
    pub fn from_parts(
        files: Vec<FileRecord>,
        postings: Vec<((u8, u8, u8), Vec<u32>)>,
        root: Vec<u8>,
    ) -> (r: Option<Self>)
        ensures
            r is Some <==> parts_ok(postings@, files@.len() as int),
            r matches Some(idx) ==> {
                &&& idx.wf()
                &&& idx.records() == files@
                &&& lists_view(idx.posting_map()) == pairs_map(postings@)
                &&& idx.root_path() == root@
            },
    {
        proof { lemma_trigram_order(); }
        let n = files.len();
        let np = postings.len();
        let mut map: BTreeMap<(u8, u8, u8), Vec<u32>> = BTreeMap::new();
        let mut i: usize = 0;
        while i < np
            invariant
                np == postings@.len(),
                n == files@.len(),
                i <= np,
                parts_ok(postings@.take(i as int), n as int),
                lists_view(map@) == pairs_map(postings@.take(i as int)),
            decreases np - i,
        {
            let key = postings[i].0;
            let list = &postings[i].1;
            proof { lemma_pairs_map_keys(postings@.take(i as int)); }
            if !posting_list_valid(list, n) {
                assert(!parts_ok(postings@, n as int)) by {
                    assert(postings@[i as int].1@ == list@);
                }
                return None;
            }
            if map.contains_key(&key) {
                assert(map@.contains_key(key));
                assert(lists_view(map@).contains_key(key));
                assert(pairs_map(postings@.take(i as int)).contains_key(key));
                assert(!parts_ok(postings@, n as int)) by {
                    let j = choose|j: int| 0 <= j < i && #[trigger] postings@.take(i as int)[j].0 == key;
                    assert(postings@[j].0 == postings@[i as int].0);
                }
                return None;
            }
            let copy = vstd::slice::slice_to_vec(list.as_slice());
            let ghost before = map@;
            map.insert(key, copy);
            proof {
                let t1 = postings@.take(i + 1);
                assert(t1.drop_last() == postings@.take(i as int));
                assert(t1.last() == postings@[i as int]);
                assert(pairs_map(t1) == pairs_map(postings@.take(i as int)).insert(key, list@));
                assert(map@ == before.insert(key, copy));
                assert(lists_view(map@) =~= lists_view(before).insert(key, copy@));
                assert(parts_ok(t1, n as int)) by {
                    assert forall|a: int| 0 <= a < t1.len() implies posting_list_ok(#[trigger] t1[a].1@, n as int) by {
                        if a < i {
                            assert(t1[a] == postings@.take(i as int)[a]);
                        }
                    }
                    assert forall|a: int, b: int| 0 <= a < b < t1.len() implies #[trigger] t1[a].0 != #[trigger] t1[b].0 by {
                        if b < i {
                            assert(t1[a] == postings@.take(i as int)[a]);
                            assert(t1[b] == postings@.take(i as int)[b]);
                        } else {
                            assert(t1[a] == postings@.take(i as int)[a]);
                            if t1[a].0 == key {
                                assert(pairs_map(postings@.take(i as int)).contains_key(key));
                            }
                        }
                    }
                }
            }
            i = i + 1;
        }
        assert(postings@.take(np as int) == postings@);
        proof {
            lemma_pairs_map_valid(postings@, n as int);
            assert forall|t: (u8, u8, u8)| #[trigger] map@.contains_key(t) implies posting_list_ok(map@[t]@, n as int) by {
                assert(lists_view(map@).contains_key(t));
                assert(lists_view(map@)[t] == map@[t]@);
            }
        }
        Some(TrigramIndex { files, postings: map, root })
    }

    /// The posting list of each trigram, or `None` when one has none.
    fn posting_lists<'a>(&'a self, trigrams: &[[u8; 3]]) -> (r: Option<Vec<&'a Vec<u32>>>)
        ensures
            match r {
                Some(lists) => {
                    &&& lists@.len() == trigrams@.len()
                    &&& forall|q: int| 0 <= q < lists@.len() ==> #[trigger] self.posting_map().contains_key(trigram_keys(trigrams@)[q])
                        && *lists@[q] == self.posting_map()[trigram_keys(trigrams@)[q]]
                },
                None => exists|j: int| 0 <= j < trigrams@.len()
                    && !self.posting_map().contains_key(#[trigger] trigram_keys(trigrams@)[j]),
            },
    {
        proof { lemma_trigram_order(); }
        let ghost keys = trigram_keys(trigrams@);
        let nt = trigrams.len();
        let mut lists: Vec<&Vec<u32>> = Vec::new();
        let mut j: usize = 0;
        while j < nt
            invariant
                nt == trigrams@.len(),
                keys == trigram_keys(trigrams@),
                j <= nt,
                lists@.len() == j,
                forall|q: int| 0 <= q < j ==> #[trigger] self.posting_map().contains_key(keys[q])
                    && *lists@[q] == self.posting_map()[keys[q]],
            decreases nt - j,
        {
            let t = trigrams[j];
            let key = (t[0], t[1], t[2]);
            assert(key == keys[j as int]);
            match self.postings.get(&key) {
                Some(l) => {
                    assert(self.posting_map().contains_key(key) && self.posting_map()[key] == *l);
                    lists.push(l);
                },
                None => {
                    assert(!self.posting_map().contains_key(keys[j as int]));
                    return None;
                },
            }
            j = j + 1;
        }
        Some(lists)
    }

    /// No file lies between `a` and `b` that is a candidate: the candidates
    /// below `b` are those below `a`.
    pub proof fn lemma_candidates_skip(&self, keys: Seq<(u8, u8, u8)>, a: int, b: int)
        requires
            0 <= a <= b,
            forall|x: int| a <= x < b ==> !#[trigger] self.is_candidate(x, keys),
        ensures
            self.candidates_below(keys, b) == self.candidates_below(keys, a),
        decreases b - a,
    {
        if b > a {
            self.lemma_candidates_skip(keys, a, b - 1);
            assert(!self.is_candidate(b - 1, keys));
            assert(self.candidates_below(keys, b) =~= self.candidates_below(keys, b - 1));
        }
    }

    /// A trigram without a posting list rules out every file.
    proof fn lemma_no_candidates(&self, keys: Seq<(u8, u8, u8)>, j: int, b: int)
        requires
            0 <= j < keys.len(),
            !self.posting_map().contains_key(keys[j]),
            0 <= b,
        ensures
            self.candidates_below(keys, b) == Seq::<int>::empty(),
    {
        assert forall|x: int| 0 <= x < b implies !#[trigger] self.is_candidate(x, keys) by {
            assert(!self.indexed(x, keys[j]));
        }
        self.lemma_candidates_skip(keys, 0, b);
    }

    /// The candidates below `b` are exactly the candidate ids below `b`,
    /// each once, in increasing order.
    pub proof fn lemma_candidates_below(&self, keys: Seq<(u8, u8, u8)>, b: int)
        requires
            0 <= b,
        ensures
            forall|x: int| #[trigger] self.candidates_below(keys, b).contains(x)
                <==> 0 <= x < b && self.is_candidate(x, keys),
            forall|i: int, j: int| 0 <= i < j < self.candidates_below(keys, b).len()
                ==> self.candidates_below(keys, b)[i] < self.candidates_below(keys, b)[j],
        decreases b,
    {
        if b > 0 {
            self.lemma_candidates_below(keys, b - 1);
            let prev = self.candidates_below(keys, b - 1);
            let cur = self.candidates_below(keys, b);
            assert forall|x: int| #[trigger] cur.contains(x) <==> 0 <= x < b && self.is_candidate(x, keys) by {
                if cur.contains(x) {
                    let i = choose|i: int| 0 <= i < cur.len() && cur[i] == x;
                    if i < prev.len() {
                        assert(prev[i] == x);
                        assert(prev.contains(x));
                    }
                }
                if 0 <= x < b && self.is_candidate(x, keys) {
                    if x < b - 1 {
                        assert(prev.contains(x));
                        let i = choose|i: int| 0 <= i < prev.len() && prev[i] == x;
                        assert(cur[i] == x);
                    } else {
                        assert(cur[cur.len() - 1] == x);
                    }
                }
            }
            assert forall|i: int, j: int| 0 <= i < j < cur.len() implies cur[i] < cur[j] by {
                if j >= prev.len() {
                    assert(prev.contains(cur[i]));
                }
            }
        }
    }
}

/// With distinct trigrams, each pair's list is the one the map holds for
/// its trigram.
proof fn lemma_pairs_map_value(ps: Seq<((u8, u8, u8), Vec<u32>)>, i: int)
    requires
        0 <= i < ps.len(),
        forall|a: int, b: int| 0 <= a < b < ps.len() ==> #[trigger] ps[a].0 != #[trigger] ps[b].0,
    ensures
        pairs_map(ps).contains_key(ps[i].0),
        pairs_map(ps)[ps[i].0] == ps[i].1@,
    decreases ps.len(),
{
    let pre = ps.drop_last();
    if i < ps.len() - 1 {
        assert forall|a: int, b: int| 0 <= a < b < pre.len() implies #[trigger] pre[a].0 != #[trigger] pre[b].0 by {
            assert(pre[a] == ps[a] && pre[b] == ps[b]);
        }
        lemma_pairs_map_value(pre, i);
        assert(pre[i] == ps[i]);
        assert(ps[i].0 != ps[ps.len() - 1].0);
    }
}

/// Law: an index written out as its parts is read back unchanged. The
/// parts of a valid index (its files, the pairs of its posting map with
/// each trigram once, its root) are accepted by
/// [`TrigramIndex::from_parts`], which then rebuilds the same files, posting
/// lists and root.
pub proof fn lemma_stored_parts_are_accepted(idx: TrigramIndex, ps: Seq<((u8, u8, u8), Vec<u32>)>)
    requires
        idx.wf(),
        pairs_map(ps) == lists_view(idx.posting_map()),
        forall|a: int, b: int| 0 <= a < b < ps.len() ==> #[trigger] ps[a].0 != #[trigger] ps[b].0,
    ensures
        parts_ok(ps, idx.records().len() as int),
{
    assert forall|i: int| 0 <= i < ps.len() implies posting_list_ok(#[trigger] ps[i].1@, idx.records().len() as int) by {
        lemma_pairs_map_value(ps, i);
        let k = ps[i].0;
        assert(lists_view(idx.posting_map()).contains_key(k));
        assert(idx.posting_map().contains_key(k));
        assert(lists_view(idx.posting_map())[k] == idx.posting_map()[k]@);
    }
}

/// Every trigram of `trigrams` is three consecutive bytes of `needle`.
pub open spec fn trigrams_of_needle(trigrams: Seq<[u8; 3]>, needle: Seq<u8>) -> bool {
    forall|j: int| 0 <= j < trigrams.len() ==> exists|q: int| 0 <= q && q + 3 <= needle.len()
        && (#[trigger] trigrams[j])@ == #[trigger] needle.subrange(q, q + 3)
}

/// Law: the index never loses a match. A file that was indexed with
/// contents `data` (every trigram of `data` lists it) and that contains
/// `needle` is among the candidates for any trigrams taken from `needle`,
/// such as those of [`CompiledPattern::required_trigrams`].
///
/// [`CompiledPattern::required_trigrams`]: crate::pattern::CompiledPattern::required_trigrams
pub proof fn lemma_containing_file_is_candidate(
    idx: TrigramIndex,
    id: int,
    data: Seq<u8>,
    needle: Seq<u8>,
    trigrams: Seq<[u8; 3]>,
)
    requires
        idx.wf(),
        0 <= id < idx.records().len(),
        forall|t: (u8, u8, u8)| #[trigger] has_trigram(data, t) ==> idx.indexed(id, t),
        exists|p: int| 0 <= p && p + needle.len() <= data.len()
            && #[trigger] data.subrange(p, p + needle.len()) == needle,
        trigrams_of_needle(trigrams, needle),
    ensures
        idx.candidate_ids(trigram_keys(trigrams)).contains(id),
{
    let keys = trigram_keys(trigrams);
    let p = choose|p: int| 0 <= p && p + needle.len() <= data.len()
        && #[trigger] data.subrange(p, p + needle.len()) == needle;
    assert forall|j: int| 0 <= j < keys.len() implies #[trigger] idx.indexed(id, keys[j]) by {
        let q = choose|q: int| 0 <= q && q + 3 <= needle.len()
            && (#[trigger] trigrams[j])@ == #[trigger] needle.subrange(q, q + 3);
        let w = p + q;
        assert(data[w] == needle[q]);
        assert(data[w + 1] == needle[q + 1]);
        assert(data[w + 2] == needle[q + 2]);
        assert(trigrams[j]@[0] == needle[q] && trigrams[j]@[1] == needle[q + 1] && trigrams[j]@[2] == needle[q + 2]);
        assert(trigram_at(data, w) == keys[j]);
        assert(has_trigram(data, keys[j]));
    }
    idx.lemma_candidates_below(keys, idx.records().len() as int);
}

/// What adding a file with path `path` and contents `data` does to an
/// index (see [`TrigramIndex::add_file`]): a file whose head holds a NUL
/// byte leaves the files as they were; any other file is appended, with the
/// next id, and is listed under every trigram of its contents. What was
/// listed stays listed.
pub open spec fn index_step(prev: TrigramIndex, next: TrigramIndex, path: Seq<u8>, data: Seq<u8>) -> bool {
    &&& next.wf()
    &&& forall|id: int, t: (u8, u8, u8)| prev.indexed(id, t) ==> #[trigger] next.indexed(id, t)
    &&& if binary_head(data) {
        next.records() == prev.records()
    } else {
        &&& next.records().len() == prev.records().len() + 1
        &&& next.records().drop_last() == prev.records()
        &&& next.records().last().path@ == path
        &&& forall|t: (u8, u8, u8)| has_trigram(data, t) ==> #[trigger] next.indexed(prev.records().len() as int, t)
    }
}

/// The number of files among `contents` that an index takes: those whose
/// head holds no NUL byte.
pub open spec fn indexed_count(contents: Seq<Seq<u8>>) -> nat
    decreases contents.len(),
{
    if contents.len() == 0 {
        0
    } else {
        indexed_count(contents.drop_last()) + if binary_head(contents.last()) { 0nat } else { 1nat }
    }
}

/// The file with id `id` has path `path` and is listed under every trigram
/// of `data`.
pub open spec fn holds_file(idx: TrigramIndex, id: int, path: Seq<u8>, data: Seq<u8>) -> bool {
    &&& 0 <= id < idx.records().len()
    &&& idx.records()[id].path@ == path
    &&& forall|t: (u8, u8, u8)| has_trigram(data, t) ==> #[trigger] idx.indexed(id, t)
}

/// A build from an empty index: `idxs[k + 1]` is `idxs[k]` after adding the
/// `k`-th file, whose path is `paths[k]` and contents `contents[k]`.
pub open spec fn is_build(idxs: Seq<TrigramIndex>, paths: Seq<Seq<u8>>, contents: Seq<Seq<u8>>) -> bool {
    &&& contents.len() == paths.len()
    &&& idxs.len() == contents.len() + 1
    &&& idxs[0].wf()
    &&& idxs[0].records().len() == 0
    &&& forall|k: int| #![trigger idxs[k]] 0 <= k < contents.len() ==> index_step(idxs[k], idxs[k + 1], paths[k], contents[k])
}

proof fn lemma_build_upto(idxs: Seq<TrigramIndex>, paths: Seq<Seq<u8>>, contents: Seq<Seq<u8>>, n: int)
    requires
        is_build(idxs, paths, contents),
        0 <= n <= contents.len(),
    ensures
        idxs[n].wf(),
        idxs[n].records().len() == indexed_count(contents.take(n)),
        forall|k: int| 0 <= k < n && !binary_head(contents[k]) ==> #[trigger] holds_file(idxs[n],
            indexed_count(contents.take(k)) as int, paths[k], contents[k]),
    decreases n,
{
    if n > 0 {
        lemma_build_upto(idxs, paths, contents, n - 1);
        let prev = idxs[n - 1];
        let next = idxs[n];
        assert(index_step(prev, next, paths[n - 1], contents[n - 1]));
        assert(contents.take(n).drop_last() == contents.take(n - 1));
        assert(contents.take(n).last() == contents[n - 1]);
        assert forall|k: int| 0 <= k < n && !binary_head(contents[k]) implies #[trigger] holds_file(next,
            indexed_count(contents.take(k)) as int, paths[k], contents[k]) by {
            let id = indexed_count(contents.take(k)) as int;
            if k < n - 1 {
                assert(holds_file(prev, id, paths[k], contents[k]));
                if !binary_head(contents[n - 1]) {
                    assert(next.records()[id] == next.records().drop_last()[id]);
                }
            } else {
                assert(id == prev.records().len());
                assert(next.records()[id] == next.records().last());
            }
        }
    } else {
        assert(contents.take(0) =~= Seq::<Seq<u8>>::empty());
    }
}

/// Law: an index built by adding files one after another, from an empty
/// index, holds exactly the added files whose head holds no NUL byte, in
/// the order they were added: their number is the file count, and the file
/// added `k`-th (if taken) has as id the number of files taken before it,
/// keeps its path and is listed under every trigram of its contents.
pub proof fn lemma_build(idxs: Seq<TrigramIndex>, paths: Seq<Seq<u8>>, contents: Seq<Seq<u8>>)
    requires
        is_build(idxs, paths, contents),
    ensures
        idxs.last().wf(),
        idxs.last().records().len() == indexed_count(contents),
        indexed_count(contents) <= contents.len(),
        forall|k: int| 0 <= k < contents.len() && !binary_head(contents[k]) ==> #[trigger] holds_file(idxs.last(),
            indexed_count(contents.take(k)) as int, paths[k], contents[k]),
{
    lemma_build_upto(idxs, paths, contents, contents.len() as int);
    assert(contents.take(contents.len() as int) == contents);
    lemma_indexed_count_bound(contents);
}

proof fn lemma_indexed_count_bound(contents: Seq<Seq<u8>>)
    ensures
        indexed_count(contents) <= contents.len(),
    decreases contents.len(),
{
    if contents.len() > 0 {
        lemma_indexed_count_bound(contents.drop_last());
    }
}

/// Law: a build never hides a match. A file taken into an index built from
/// an empty one, whose contents contain `needle`, is among the candidates
/// for any trigrams taken from `needle`.
pub proof fn lemma_build_keeps_matches(
    idxs: Seq<TrigramIndex>,
    paths: Seq<Seq<u8>>,
    contents: Seq<Seq<u8>>,
    k: int,
    needle: Seq<u8>,
    trigrams: Seq<[u8; 3]>,
)
    requires
        is_build(idxs, paths, contents),
        0 <= k < contents.len(),
        !binary_head(contents[k]),
        exists|p: int| 0 <= p && p + needle.len() <= contents[k].len()
            && #[trigger] contents[k].subrange(p, p + needle.len()) == needle,
        trigrams_of_needle(trigrams, needle),
    ensures
        idxs.last().candidate_paths(trigram_keys(trigrams)).contains(paths[k]),
{
    let idx = idxs.last();
    let id = indexed_count(contents.take(k)) as int;
    assert(idx.wf() && holds_file(idx, id, paths[k], contents[k])) by {
        lemma_build(idxs, paths, contents);
    }
    lemma_containing_file_is_candidate(idx, id, contents[k], needle, trigrams);
    let ids = idx.candidate_ids(trigram_keys(trigrams));
    let w = choose|w: int| 0 <= w < ids.len() && ids[w] == id;
    assert(idx.candidate_paths(trigram_keys(trigrams))[w] == paths[k]);
}

/// Trigrams are totally ordered, as the posting map needs.
proof fn lemma_trigram_order()
    ensures
        vstd::laws_cmp::obeys_cmp::<(u8, u8, u8)>(),
        vstd::std_specs::btree::key_obeys_cmp_spec::<(u8, u8, u8)>(),
{
    assert(vstd::laws_cmp::obeys_cmp::<u8>());
    assert(vstd::laws_cmp::obeys_cmp::<(u8, u8, u8)>());
}

/// Whether `l` is a valid posting list for `n` files.
fn posting_list_valid(l: &Vec<u32>, n: usize) -> (r: bool)
    ensures
        r == posting_list_ok(l@, n as int),
{
    let len = l.len();
    let mut i: usize = 0;
    while i < len
        invariant
            len == l@.len(),
            i <= len,
            posting_list_ok(l@.take(i as int), n as int),
        decreases len - i,
    {
        let x = l[i];
        if (x as usize) >= n {
            assert(!posting_list_ok(l@, n as int)) by {
                assert(l@[i as int] == x);
            }
            return false;
        }
        if i > 0 && l[i - 1] >= x {
            assert(!posting_list_ok(l@, n as int)) by {
                assert(l@[i - 1] >= l@[i as int]);
            }
            return false;
        }
        proof {
            let t = l@.take(i + 1);
            assert forall|a: int, b: int| 0 <= a < b < t.len() implies t[a] < t[b] by {
                if b == i as int && a < i - 1 {
                    assert(l@.take(i as int)[a] < l@.take(i as int)[i - 1]);
                }
                if b < i {
                    assert(l@.take(i as int)[a] < l@.take(i as int)[b]);
                }
            }
            assert forall|a: int| 0 <= a < t.len() implies t[a] < n by {
                if a < i {
                    assert(l@.take(i as int)[a] < n);
                }
            }
        }
        i = i + 1;
    }
    assert(l@.take(len as int) == l@);
    true
}

/// Whether the strictly increasing list `l` holds `x` (binary search).
fn sorted_contains(l: &Vec<u32>, x: u32) -> (r: bool)
    requires
        strictly_increasing(l@),
    ensures
        r == l@.contains(x),
{
    let mut lo: usize = 0;
    let mut hi: usize = l.len();
    while lo < hi
        invariant
            lo <= hi <= l@.len(),
            strictly_increasing(l@),
            forall|i: int| 0 <= i < lo ==> l@[i] < x,
            forall|i: int| hi <= i < l@.len() ==> l@[i] > x,
        decreases hi - lo,
    {
        let mid = lo + (hi - lo) / 2;
        let v = l[mid];
        if v == x {
            return true;
        } else if v < x {
            lo = mid + 1;
        } else {
            hi = mid;
        }
    }
    proof {
        if l@.contains(x) {
            let i = choose|i: int| 0 <= i < l@.len() && l@[i] == x;
            assert(false);
        }
    }
    false
}


/// Maximum total size of all stored trigram indexes before the oldest are
/// evicted: 2 GiB.
pub const MAX_CACHE_BYTES: u64 = 2147483648;

/// A stored index, as the eviction sees it: its size on disk and when it
/// was written.
#[derive(Debug, Clone, Copy, PartialEq, Eq, Structural)]
pub struct StoredIndexInfo {
    pub size: u64,
    pub mtime_s: i64,
    pub mtime_ns: u32,
}

/// Index `i` (info `a`) was written before index `j` (info `b`); equal
/// times are ordered by position, as a stable sort keeps them.
pub open spec fn index_older(a: StoredIndexInfo, i: int, b: StoredIndexInfo, j: int) -> bool {
    ||| a.mtime_s < b.mtime_s
    ||| (a.mtime_s == b.mtime_s && a.mtime_ns < b.mtime_ns)
    ||| (a.mtime_s == b.mtime_s && a.mtime_ns == b.mtime_ns && i < j)
}

/// The total size of the stored indexes.
pub open spec fn sizes_total(s: Seq<StoredIndexInfo>) -> int
    decreases s.len(),
{
    if s.len() == 0 {
        0
    } else {
        sizes_total(s.drop_last()) + s.last().size
    }
}

/// The total size of the indexes at the positions of `plan`.
pub open spec fn plan_total(s: Seq<StoredIndexInfo>, plan: Seq<usize>) -> int
    decreases plan.len(),
{
    if plan.len() == 0 {
        0
    } else {
        plan_total(s, plan.drop_last()) + s[plan.last() as int].size
    }
}

/// `plan` lists the indexes to remove, oldest first, until the total size
/// is at most `limit`: it removes older indexes before newer ones, and
/// stops as soon as the rest fits (or nothing is left).
pub open spec fn is_eviction_plan(s: Seq<StoredIndexInfo>, limit: u64, plan: Seq<usize>) -> bool {
    &&& plan.no_duplicates()
    &&& forall|k: int| 0 <= k < plan.len() ==> plan[k] < s.len()
    &&& forall|k: int, l: int| 0 <= k < l < plan.len()
        ==> index_older(s[plan[k] as int], plan[k] as int, s[plan[l] as int], plan[l] as int)
    &&& forall|i: int, k: int| 0 <= i < s.len() && !plan.contains(i as usize) && 0 <= k < plan.len()
        ==> index_older(s[plan[k] as int], plan[k] as int, s[i], i)
    &&& forall|k: int| 0 <= k < plan.len() ==> sizes_total(s) - plan_total(s, #[trigger] plan.take(k)) > limit
    &&& sizes_total(s) - plan_total(s, plan) <= limit || plan.len() == s.len()
}

/// Which stored indexes to remove so that their total size comes down to
/// `limit`: the oldest first, and none when the total already fits.
/// Returns their positions in `stored`, in the order of removal.
pub fn eviction_plan(stored: &[StoredIndexInfo], limit: u64) -> (r: Vec<usize>)
    ensures
        is_eviction_plan(stored@, limit, r@),
{
    let n = stored.len();
    let mut total: u128 = 0;
    let mut i: usize = 0;
    while i < n
        invariant
            n == stored@.len(),
            i <= n,
            total == sizes_total(stored@.take(i as int)),
            total <= i * 0xffff_ffff_ffff_ffffu128,
        decreases n - i,
    {
        assert(stored@.take(i + 1).drop_last() == stored@.take(i as int));
        proof {
            assert((i + 1) * 0xffff_ffff_ffff_ffffu128 <= 0x1_0000_0000_0000_0000 * 0xffff_ffff_ffff_ffffu128)
                by (nonlinear_arith)
                requires i + 1 <= 0x1_0000_0000_0000_0000int;
            assert((i + 1) * 0xffff_ffff_ffff_ffffu128 == i * 0xffff_ffff_ffff_ffffu128 + 0xffff_ffff_ffff_ffffu128)
                by (nonlinear_arith);
        }
        total = total + stored[i].size as u128;
        i = i + 1;
    }
    assert(stored@.take(n as int) == stored@);
    let mut removed: Vec<bool> = Vec::new();
    let mut j: usize = 0;
    while j < n
        invariant
            j <= n,
            removed@.len() == j,
            forall|q: int| 0 <= q < j ==> !removed@[q],
        decreases n - j,
    {
        removed.push(false);
        j = j + 1;
    }
    let mut plan: Vec<usize> = Vec::new();
    let mut taken: u128 = 0;
    assert(plan@.take(0) == plan@);
    while total > taken + limit as u128
        invariant
            n == stored@.len(),
            removed@.len() == n,
            forall|q: int| 0 <= q < n ==> (removed@[q] <==> plan@.contains(q as usize)),
            plan@.no_duplicates(),
            plan@.len() <= n,
            forall|k: int| 0 <= k < plan@.len() ==> plan@[k] < n,
            forall|k: int, l: int| 0 <= k < l < plan@.len()
                ==> index_older(stored@[plan@[k] as int], plan@[k] as int, stored@[plan@[l] as int], plan@[l] as int),
            forall|q: int, k: int| 0 <= q < n && !plan@.contains(q as usize) && 0 <= k < plan@.len()
                ==> index_older(stored@[plan@[k] as int], plan@[k] as int, stored@[q], q),
            forall|k: int| 0 <= k < plan@.len() ==> sizes_total(stored@) - plan_total(stored@, #[trigger] plan@.take(k)) > limit,
            total == sizes_total(stored@),
            taken == plan_total(stored@, plan@),
            taken <= plan@.len() * 0xffff_ffff_ffff_ffffu128,
            n <= usize::MAX,
        ensures
            sizes_total(stored@) - plan_total(stored@, plan@) <= limit || plan@.len() == n,
            plan@.no_duplicates(),
            forall|k: int| 0 <= k < plan@.len() ==> plan@[k] < n,
            forall|k: int, l: int| 0 <= k < l < plan@.len()
                ==> index_older(stored@[plan@[k] as int], plan@[k] as int, stored@[plan@[l] as int], plan@[l] as int),
            forall|q: int, k: int| 0 <= q < n && !plan@.contains(q as usize) && 0 <= k < plan@.len()
                ==> index_older(stored@[plan@[k] as int], plan@[k] as int, stored@[q], q),
            forall|k: int| 0 <= k < plan@.len() ==> sizes_total(stored@) - plan_total(stored@, #[trigger] plan@.take(k)) > limit,
        decreases n - plan@.len(),
    {
        // The oldest index still kept.
        let mut best: usize = n;
        let mut q: usize = 0;
        while q < n
            invariant
                n == stored@.len(),
                removed@.len() == n,
                q <= n,
                best == n || (best < q && !removed@[best as int]),
                forall|x: int| 0 <= x < q && !removed@[x] ==> best < n
                    && (x == best || index_older(stored@[best as int], best as int, stored@[x], x)),
            decreases n - q,
        {
            if !removed[q] {
                let older = best == n || {
                    let a = stored[q];
                    let b = stored[best];
                    a.mtime_s < b.mtime_s || (a.mtime_s == b.mtime_s && (a.mtime_ns < b.mtime_ns
                        || (a.mtime_ns == b.mtime_ns && q < best)))
                };
                if older {
                    best = q;
                }
            }
            q = q + 1;
        }
        if best == n {
            // Everything is removed already.
            proof {
                assert forall|x: usize| x < n implies #[trigger] plan@.contains(x) by {
                    assert(removed@[x as int]);
                }
                lemma_full_plan_len(plan@, n);
            }
            break;
        }
        let ghost old_plan = plan@;
        let ghost old_removed = removed@;
        removed.set(best, true);
        plan.push(best);
        proof {
            assert(!old_plan.contains(best));
            assert(plan@.take(old_plan.len() as int) == old_plan);
            assert(plan@.drop_last() == old_plan);
            assert(plan_total(stored@, plan@) == plan_total(stored@, old_plan) + stored@[best as int].size);
            assert forall|x: int| 0 <= x < n implies (removed@[x] <==> plan@.contains(x as usize)) by {
                if x == best as int {
                    assert(plan@[plan@.len() - 1] == best);
                } else {
                    if old_plan.contains(x as usize) {
                        let w = choose|w: int| 0 <= w < old_plan.len() && old_plan[w] == x as usize;
                        assert(plan@[w] == x as usize);
                    }
                    if plan@.contains(x as usize) {
                        let w = choose|w: int| 0 <= w < plan@.len() && plan@[w] == x as usize;
                        assert(w < old_plan.len());
                        assert(old_plan[w] == x as usize);
                    }
                }
            }
            assert forall|k: int, l: int| 0 <= k < l < plan@.len()
                implies index_older(stored@[plan@[k] as int], plan@[k] as int, stored@[plan@[l] as int], plan@[l] as int) by {
                if l == plan@.len() - 1 {
                    assert(!old_plan.contains(best));
                    assert(plan@[k] == old_plan[k]);
                }
            }
            assert forall|x: int, k: int| 0 <= x < n && !plan@.contains(x as usize) && 0 <= k < plan@.len()
                implies index_older(stored@[plan@[k] as int], plan@[k] as int, stored@[x], x) by {
                assert(x != best as int) by {
                    assert(plan@[plan@.len() - 1] == best);
                }
                assert(!old_plan.contains(x as usize)) by {
                    if old_plan.contains(x as usize) {
                        let w = choose|w: int| 0 <= w < old_plan.len() && old_plan[w] == x as usize;
                        assert(plan@[w] == x as usize);
                    }
                }
                assert(!removed@[x]);
                if k == plan@.len() - 1 {
                    assert(!old_removed[x]) by {
                        assert(removed@[x] == old_removed[x]);
                    }
                } else {
                    assert(plan@[k] == old_plan[k]);
                }
            }
            assert forall|k: int| 0 <= k < plan@.len()
                implies sizes_total(stored@) - plan_total(stored@, #[trigger] plan@.take(k)) > limit by {
                if k < old_plan.len() {
                    assert(plan@.take(k) == old_plan.take(k));
                } else {
                    assert(plan@.take(k) == old_plan);
                }
            }
            assert(plan@.no_duplicates());
        }
        proof {
            lemma_plan_len_bound(old_plan, n, best);
            assert((plan@.len()) * 0xffff_ffff_ffff_ffffu128 == old_plan.len() * 0xffff_ffff_ffff_ffffu128 + 0xffff_ffff_ffff_ffffu128)
                by (nonlinear_arith)
                requires plan@.len() == old_plan.len() + 1;
            assert(plan@.len() * 0xffff_ffff_ffff_ffffu128 <= 0x1_0000_0000_0000_0000 * 0xffff_ffff_ffff_ffffu128)
                by (nonlinear_arith)
                requires plan@.len() <= 0x1_0000_0000_0000_0000int;
        }
        taken = taken + stored[best].size as u128;
    }
    plan
}

/// A plan without repeats over `n` indexes that leaves out `x` has fewer
/// than `n` entries.
proof fn lemma_plan_len_bound(plan: Seq<usize>, n: usize, x: usize)
    requires
        plan.no_duplicates(),
        forall|k: int| 0 <= k < plan.len() ==> plan[k] < n,
        x < n,
        !plan.contains(x),
    ensures
        plan.len() < n,
{
    let ps = plan.to_set();
    let full = <usize as vstd::set_lib::FiniteRange>::range_set(0, n);
    <usize as vstd::set_lib::FiniteRange>::range_properties(0, n);
    assert(ps.subset_of(full.remove(x))) by {
        assert forall|y: usize| ps.contains(y) implies full.remove(x).contains(y) by {
            let w = choose|w: int| 0 <= w < plan.len() && plan[w] == y;
        }
    }
    plan.unique_seq_to_set();
    vstd::set_lib::lemma_len_subset(ps, full.remove(x));
}

/// A plan that removes every one of `n` indexes has `n` entries.
proof fn lemma_full_plan_len(plan: Seq<usize>, n: usize)
    requires
        plan.no_duplicates(),
        forall|k: int| 0 <= k < plan.len() ==> plan[k] < n,
        forall|x: usize| x < n ==> #[trigger] plan.contains(x),
    ensures
        plan.len() == n,
{
    let ps = plan.to_set();
    let full = <usize as vstd::set_lib::FiniteRange>::range_set(0, n);
    assert(ps =~= full) by {
        assert forall|x: usize| ps.contains(x) implies full.contains(x) by {
            let w = choose|w: int| 0 <= w < plan.len() && plan[w] == x;
        }
        assert forall|x: usize| full.contains(x) implies ps.contains(x) by {
            assert(plan.contains(x));
        }
    }
    plan.unique_seq_to_set();
    <usize as vstd::set_lib::FiniteRange>::range_properties(0, n);
}

} // verus!
