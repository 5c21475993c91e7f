//! Cache of search results per file, for one pattern and set of flags.
//!
//! The records come from a JSON-lines file, read by the caller; a later
//! record for a path replaces an earlier one. A record is only used while
//! the file keeps the modification time and size it had when the record was
//! written.

use vstd::prelude::*;

verus! {

/// Cached match data for a single file, stored in memory.
pub struct CacheEntry {
    pub line_nos: Vec<u32>,
    /// Each element is `(byte_offset, line_byte_length)`.
    pub offsets: Vec<(u64, u32)>,
}

/// Snapshot of a file's mtime and size used for cache invalidation.
#[derive(Debug, Clone, Copy, PartialEq, Eq, Structural)]
pub struct FileIdentity {
    pub mtime_s: i64,
    pub mtime_ns: u32,
    pub size: u64,
}

/// One cached result: the file, its identity when the result was recorded,
/// and the result.
pub struct CacheRecord {
    pub path: Vec<u8>,
    pub identity: FileIdentity,
    pub entry: CacheEntry,
}

/// In-memory index of all cached results for a single pattern+flags
/// combination.
pub struct CacheIndex {
    records: Vec<CacheRecord>,
    cache_dir: Vec<u8>,
}

/// The position of the last record for `path`, the one in force.
pub open spec fn last_record_for(recs: Seq<CacheRecord>, path: Seq<u8>) -> Option<int>
    decreases recs.len(),
{
    if recs.len() == 0 {
        None
    } else if recs.last().path@ == path {
        Some(recs.len() - 1)
    } else {
        last_record_for(recs.drop_last(), path)
    }
}

impl CacheIndex {
    /// The records, in the order they were read.
    pub closed spec fn records(&self) -> Seq<CacheRecord> {
        self.records@
    }

    /// The directory the cache lives in.
    pub closed spec fn dir(&self) -> Seq<u8> {
        self.cache_dir@
    }

    /// An index over the records read from the cache directory, in file
    /// order.
    pub fn new(cache_dir: Vec<u8>, records: Vec<CacheRecord>) -> (r: Self)
        ensures
            r.records() == records@,
            r.dir() == cache_dir@,
    {
        CacheIndex { records, cache_dir }
    }

    /// The directory the cache lives in.
    pub fn cache_dir(&self) -> (r: &Vec<u8>)
        ensures
            r@ == self.dir(),
    {
        &self.cache_dir
    }

    /// Returns the cached entry for `path` if it exists **and** the file has
    /// not been modified since the entry was recorded: `current` is the
    /// file's identity now, or `None` when it cannot be read. Invalidation
    /// compares `(mtime_s, mtime_ns, size)`.
    pub fn lookup(&self, path: &[u8], current: Option<FileIdentity>) -> (r: Option<&CacheEntry>)
        ensures
            match last_record_for(self.records(), path@) {
                None => r is None,
                Some(i) => if current == Some(self.records()[i].identity) {
                    r matches Some(e) && *e == self.records()[i].entry
                } else {
                    r is None
                },
            },
    {
        let mut k = self.records.len();
        assert(self.records@.take(k as int) == self.records@);
        while k > 0
            invariant
                k <= self.records@.len(),
                last_record_for(self.records@, path@) == last_record_for(self.records@.take(k as int), path@),
            decreases k,
        {
            let rec = &self.records[k - 1];
            proof {
                let t = self.records@.take(k as int);
                assert(t.last() == *rec);
                assert(t.drop_last() == self.records@.take(k - 1));
            }
            if bytes_equal(rec.path.as_slice(), path) {
                return match current {
                    Some(c) => if c.mtime_s == rec.identity.mtime_s && c.mtime_ns == rec.identity.mtime_ns
                        && c.size == rec.identity.size {
                        Some(&rec.entry)
                    } else {
                        None
                    },
                    None => None,
                };
            }
            k = k - 1;
        }
        None
    }
}

/// Whether two byte strings are equal.
pub fn bytes_equal(a: &[u8], b: &[u8]) -> (r: bool)
    ensures
        r == (a@ == b@),
{
    let n = a.len();
    if n != b.len() {
        return false;
    }
    let mut i: usize = 0;
    while i < n
        invariant
            n == a@.len(),
            n == b@.len(),
            i <= n,
            a@.take(i as int) == b@.take(i as int),
        decreases n - i,
    {
        if a[i] != b[i] {
            assert(a@[i as int] != b@[i as int]);
            return false;
        }
        assert(a@.take(i + 1) =~= a@.take(i as int).push(a@[i as int]));
        assert(b@.take(i + 1) =~= b@.take(i as int).push(b@[i as int]));
        i = i + 1;
    }
    assert(a@.take(n as int) == a@);
    assert(b@.take(n as int) == b@);
    true
}

} // verus!
