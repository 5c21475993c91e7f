//! Substring search: a literal needle searched with `memchr::memmem`.

use memchr::memmem::Finder;
use vstd::prelude::*;

verus! {

#[verifier::external_type_specification]
#[verifier::external_body]
pub struct ExFinder<'n>(Finder<'n>);

/// `n` occurs in `h` at position `i`.
pub open spec fn occurs_at(h: Seq<u8>, n: Seq<u8>, i: int) -> bool {
    0 <= i && i + n.len() <= h.len() && h.subrange(i, i + n.len()) == n
}

/// `n` occurs somewhere in `h`.
pub open spec fn contains(h: Seq<u8>, n: Seq<u8>) -> bool {
    exists|i: int| occurs_at(h, n, i)
}

/// The first position at or after `i` where `n` occurs in `h`.
pub open spec fn first_occurrence_from(h: Seq<u8>, n: Seq<u8>, i: int) -> Option<int>
    decreases h.len() + 1 - i,
{
    if i < 0 || i + n.len() > h.len() {
        None
    } else if occurs_at(h, n, i) {
        Some(i)
    } else {
        first_occurrence_from(h, n, i + 1)
    }
}

/// Step taken after an occurrence: the needle's length, at least one.
pub open spec fn step(n: Seq<u8>) -> int {
    if n.len() == 0 { 1 } else { n.len() as int }
}

/// The non-overlapping occurrences of `n` in `h` at or after `i`, found from
/// left to right, each search resuming one step past the previous hit.
pub open spec fn occurrences_from(h: Seq<u8>, n: Seq<u8>, i: int) -> Seq<int>
    decreases h.len() + 1 - i,
{
    match first_occurrence_from(h, n, i) {
        None => Seq::empty(),
        Some(k) => {
            proof { lemma_first_occurrence_from(h, n, i); }
            seq![k].add(occurrences_from(h, n, k + step(n)))
        },
    }
}

pub proof fn lemma_first_occurrence_from(h: Seq<u8>, n: Seq<u8>, i: int)
    ensures
        match first_occurrence_from(h, n, i) {
            Some(k) => 0 <= i <= k && occurs_at(h, n, k)
                && forall|j: int| i <= j < k ==> !occurs_at(h, n, j),
            None => 0 <= i ==> forall|j: int| i <= j ==> !occurs_at(h, n, j),
        },
    decreases h.len() + 1 - i,
{
    if i >= 0 && i + n.len() <= h.len() && !occurs_at(h, n, i) {
        lemma_first_occurrence_from(h, n, i + 1);
    }
}

/// A range list as pairs of integers.
pub open spec fn ranges_view(v: Seq<core::ops::Range<usize>>) -> Seq<(int, int)> {
    v.map_values(|r: core::ops::Range<usize>| (r.start as int, r.end as int))
}

/// Ranges inside `[0, len]`, each starting no later than it ends, and each
/// ending no later than the next starts.
pub open spec fn ordered_ranges(rs: Seq<(int, int)>, len: int) -> bool {
    &&& forall|i: int| 0 <= i < rs.len() ==> 0 <= #[trigger] rs[i].0 <= rs[i].1 <= len
    &&& forall|i: int, j: int| 0 <= i < j < rs.len() ==> #[trigger] rs[i].1 <= #[trigger] rs[j].0
}

/// The ranges covered by the non-overlapping occurrences of `n` in `h`.
pub open spec fn occurrence_ranges(h: Seq<u8>, n: Seq<u8>) -> Seq<(int, int)> {
    occurrences_from(h, n, 0).map_values(|k: int| (k, k + n.len()))
}

/// A literal needle together with the substring searcher built for it.
pub struct LiteralFinder {
    finder: Finder<'static>,
    needle: Vec<u8>,
}

impl View for LiteralFinder {
    type V = Seq<u8>;

    closed spec fn view(&self) -> Seq<u8> {
        self.needle@
    }
}

impl LiteralFinder {
    /// Builds the searcher with `memchr::memmem::Finder::new`; the searcher
    /// looks for exactly the bytes of `needle`, which are kept beside it.
    #[verifier::external_body]
    pub(crate) fn new(needle: &[u8]) -> (r: LiteralFinder)
        ensures
            r@ == needle@,
    {
        LiteralFinder { finder: Finder::new(needle).into_owned(), needle: needle.to_vec() }
    }

    /// `Finder::find`: the position of the first occurrence of the needle in
    /// `haystack`, or `None` when it does not occur.
    #[verifier::external_body]
    pub(crate) fn find(&self, haystack: &[u8]) -> (r: Option<usize>)
        ensures
            match r {
                Some(k) => occurs_at(haystack@, self@, k as int)
                    && forall|j: int| 0 <= j < k ==> !occurs_at(haystack@, self@, j),
                None => !contains(haystack@, self@),
            },
    {
        self.finder.find(haystack)
    }

    /// The needle's bytes.
    pub fn needle(&self) -> (r: &[u8])
        ensures
            r@ == self@,
    {
        self.needle.as_slice()
    }

    /// The first occurrence of the needle at or after `pos`.
    pub fn find_from(&self, haystack: &[u8], pos: usize) -> (r: Option<usize>)
        ensures
            r == match first_occurrence_from(haystack@, self@, pos as int) {
                Some(k) => Some(k as usize),
                None => None::<usize>,
            },
    {
        proof { lemma_first_occurrence_from(haystack@, self@, pos as int); }
        if pos > haystack.len() {
            return None;
        }
        let rest = &haystack[pos..haystack.len()];
        match self.find(rest) {
            Some(k) => {
                proof {
                    assert(occurs_at(haystack@, self@, pos + k)) by {
                        assert(haystack@.subrange(pos + k, pos + k + self@.len())
                            == rest@.subrange(k as int, k + self@.len()));
                    }
                    assert forall|j: int| pos <= j < pos + k implies !occurs_at(haystack@, self@, j) by {
                        if occurs_at(haystack@, self@, j) {
                            assert(haystack@.subrange(j, j + self@.len())
                                == rest@.subrange(j - pos, j - pos + self@.len()));
                            assert(occurs_at(rest@, self@, j - pos));
                        }
                    }
                    lemma_first_occurrence_unique(haystack@, self@, pos as int, pos + k);
                }
                Some(pos + k)
            },
            None => {
                proof {
                    assert forall|j: int| pos <= j implies !occurs_at(haystack@, self@, j) by {
                        if occurs_at(haystack@, self@, j) {
                            assert(haystack@.subrange(j, j + self@.len())
                                == rest@.subrange(j - pos, j - pos + self@.len()));
                            assert(occurs_at(rest@, self@, j - pos));
                        }
                    }
                    lemma_first_occurrence_none(haystack@, self@, pos as int);
                }
                None
            },
        }
    }

    /// The ranges of the non-overlapping occurrences of the needle in `line`,
    /// each one needle long.
    pub fn occurrence_ranges(&self, line: &[u8]) -> (r: Vec<core::ops::Range<usize>>)
        ensures
            ranges_view(r@) == occurrence_ranges(line@, self@),
            ordered_ranges(ranges_view(r@), line@.len() as int),
    {
        proof { lemma_occurrence_ranges_ordered(line@, self@); }
        let nlen = self.needle.len();
        let llen = line.len();
        let mut out: Vec<core::ops::Range<usize>> = Vec::new();
        let mut pos: usize = 0;
        loop
            invariant
                nlen == self@.len(),
                llen == line@.len(),
                ordered_ranges(occurrence_ranges(line@, self@), line@.len() as int),
                pos <= line@.len() + 1,
                ranges_view(out@) + occurrences_from(line@, self@, pos as int).map_values(
                    |k: int| (k, k + self@.len()),
                ) == occurrence_ranges(line@, self@),
            decreases line@.len() + 1 - pos,
        {
            let hit = self.find_from(line, pos);
            proof { lemma_first_occurrence_from(line@, self@, pos as int); }
            match hit {
                None => {
                    assert(occurrences_from(line@, self@, pos as int) == Seq::<int>::empty());
                    assert(ranges_view(out@) == occurrence_ranges(line@, self@));
                    return out;
                },
                Some(k) => {
                    proof {
                        match first_occurrence_from(line@, self@, pos as int) {
                            Some(k0) => {
                                assert(0 <= k0 && k0 + self@.len() <= line@.len());
                                assert(hit == Some(k0 as usize));
                                assert(k0 == k);
                            },
                            None => {},
                        }
                        assert(first_occurrence_from(line@, self@, pos as int) == Some(k as int));
                    }
                    let ghost old_out = out@;
                    out.push(k..k + nlen);
                    proof {
                        let next = k + step(self@);
                        assert(occurrences_from(line@, self@, pos as int)
                            == seq![k as int].add(occurrences_from(line@, self@, next)));
                        assert(ranges_view(out@) == ranges_view(old_out).push((k as int, k + nlen)));
                        assert(seq![k as int].add(occurrences_from(line@, self@, next)).map_values(
                            |k: int| (k, k + self@.len()),
                        ) == seq![(k as int, k + nlen)].add(
                            occurrences_from(line@, self@, next).map_values(|k: int| (k, k + self@.len())),
                        ));
                    }
                    if k == llen {
                        proof {
                            assert(occurrences_from(line@, self@, k + step(self@)) == Seq::<int>::empty());
                            assert(occurrences_from(line@, self@, k + step(self@)).map_values(
                                |k: int| (k, k + self@.len()),
                            ) == Seq::<(int, int)>::empty());
                            assert(ranges_view(out@) + Seq::<(int, int)>::empty() == ranges_view(out@));
                            assert(ranges_view(out@) == occurrence_ranges(line@, self@));
                        }
                        return out;
                    }
                    pos = if nlen == 0 { k + 1 } else { k + nlen };
                },
            }
        }
    }
}

/// Occurrence ranges are ordered: occurrences are increasing and at least
/// one needle apart.
pub proof fn lemma_occurrence_ranges_ordered(h: Seq<u8>, n: Seq<u8>)
    ensures
        ordered_ranges(occurrence_ranges(h, n), h.len() as int),
    decreases h.len(),
{
    lemma_occurrences_step(h, n, 0);
    let occ = occurrences_from(h, n, 0);
    let rs = occurrence_ranges(h, n);
    assert forall|i: int| 0 <= i < rs.len() implies 0 <= #[trigger] rs[i].0 <= rs[i].1 <= h.len() by {
        assert(rs[i] == (occ[i], occ[i] + n.len()));
    }
    assert forall|i: int, j: int| 0 <= i < j < rs.len() implies #[trigger] rs[i].1 <= #[trigger] rs[j].0 by {
        assert(rs[i] == (occ[i], occ[i] + n.len()));
        assert(rs[j] == (occ[j], occ[j] + n.len()));
    }
}

/// Occurrences found from `i` are at least one step apart and fit in `h`.
pub proof fn lemma_occurrences_step(h: Seq<u8>, n: Seq<u8>, i: int)
    ensures
        forall|k: int| 0 <= k < occurrences_from(h, n, i).len() ==>
            0 <= #[trigger] occurrences_from(h, n, i)[k] && occurrences_from(h, n, i)[k] + n.len() <= h.len(),
        forall|k: int, m: int| 0 <= k < m < occurrences_from(h, n, i).len() ==>
            #[trigger] occurrences_from(h, n, i)[k] + step(n) <= #[trigger] occurrences_from(h, n, i)[m],
    decreases h.len() + 1 - i,
{
    lemma_first_occurrence_from(h, n, i);
    match first_occurrence_from(h, n, i) {
        None => {},
        Some(k0) => {
            let rest = occurrences_from(h, n, k0 + step(n));
            lemma_occurrences_step(h, n, k0 + step(n));
            lemma_occurrences_from(h, n, k0 + step(n));
            let all = occurrences_from(h, n, i);
            assert(all == seq![k0].add(rest));
            assert forall|k: int| 0 <= k < all.len() implies
                0 <= #[trigger] all[k] && all[k] + n.len() <= h.len() by {
                if k > 0 {
                    assert(all[k] == rest[k - 1]);
                }
            }
            assert forall|k: int, m: int| 0 <= k < m < all.len() implies
                #[trigger] all[k] + step(n) <= #[trigger] all[m] by {
                assert(all[m] == rest[m - 1]);
                if k > 0 {
                    assert(all[k] == rest[k - 1]);
                }
            }
        },
    }
}

pub proof fn lemma_first_occurrence_unique(h: Seq<u8>, n: Seq<u8>, i: int, k: int)
    requires
        0 <= i <= k,
        occurs_at(h, n, k),
        forall|j: int| i <= j < k ==> !occurs_at(h, n, j),
    ensures
        first_occurrence_from(h, n, i) == Some(k),
    decreases k - i,
{
    if i < k {
        lemma_first_occurrence_unique(h, n, i + 1, k);
    }
}

pub proof fn lemma_first_occurrence_none(h: Seq<u8>, n: Seq<u8>, i: int)
    requires
        0 <= i,
        forall|j: int| i <= j ==> !occurs_at(h, n, j),
    ensures
        first_occurrence_from(h, n, i) == None::<int>,
    decreases h.len() + 1 - i,
{
    if i + n.len() <= h.len() {
        lemma_first_occurrence_none(h, n, i + 1);
    }
}

} // verus!

verus! {

/// The occurrences found from `i` are positions of `n` at or after `i`, in
/// increasing order.
pub proof fn lemma_occurrences_from(h: Seq<u8>, n: Seq<u8>, i: int)
    ensures
        forall|k: int| 0 <= k < occurrences_from(h, n, i).len() ==> {
            &&& i <= #[trigger] occurrences_from(h, n, i)[k]
            &&& 0 <= occurrences_from(h, n, i)[k]
            &&& occurs_at(h, n, occurrences_from(h, n, i)[k])
        },
        forall|k: int, m: int| 0 <= k < m < occurrences_from(h, n, i).len()
            ==> #[trigger] occurrences_from(h, n, i)[k] < #[trigger] occurrences_from(h, n, i)[m],
    decreases h.len() + 1 - i,
{
    lemma_first_occurrence_from(h, n, i);
    match first_occurrence_from(h, n, i) {
        None => {},
        Some(k0) => {
            let rest = occurrences_from(h, n, k0 + step(n));
            lemma_occurrences_from(h, n, k0 + step(n));
            assert(occurrences_from(h, n, i) == seq![k0].add(rest));
            assert forall|k: int| 0 <= k < occurrences_from(h, n, i).len() implies {
                &&& i <= #[trigger] occurrences_from(h, n, i)[k]
                &&& 0 <= occurrences_from(h, n, i)[k]
                &&& occurs_at(h, n, occurrences_from(h, n, i)[k])
            } by {
                if k > 0 {
                    assert(occurrences_from(h, n, i)[k] == rest[k - 1]);
                }
            }
            assert forall|k: int, m: int| 0 <= k < m < occurrences_from(h, n, i).len()
                implies #[trigger] occurrences_from(h, n, i)[k] < #[trigger] occurrences_from(h, n, i)[m] by {
                assert(occurrences_from(h, n, i)[m] == rest[m - 1]);
                if k > 0 {
                    assert(occurrences_from(h, n, i)[k] == rest[k - 1]);
                }
            }
        },
    }
}

} // verus!
