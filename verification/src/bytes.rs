//! Byte-level primitives: single-byte search and the line model that the
//! searcher and the formatter share.

use vstd::prelude::*;

verus! {

/// Index of the first `b` in `s` at or after `i`, or `s.len()` when there is none.
pub open spec fn next_byte(s: Seq<u8>, b: u8, i: int) -> int
    decreases s.len() - i,
{
    if i >= s.len() {
        s.len() as int
    } else if s[i] == b {
        i
    } else {
        next_byte(s, b, i + 1)
    }
}

/// Number of occurrences of `b` in `s`.
pub open spec fn count_byte(s: Seq<u8>, b: u8) -> nat
    decreases s.len(),
{
    if s.len() == 0 {
        0
    } else {
        count_byte(s.drop_last(), b) + if s.last() == b { 1nat } else { 0nat }
    }
}

/// Specification of `memchr::memchr`: the first occurrence of a byte.
pub assume_specification[ memchr::memchr ](needle: u8, haystack: &[u8]) -> (r: Option<usize>)
    ensures
        match r {
            Some(k) => k < haystack@.len() && haystack@[k as int] == needle
                && forall|j: int| 0 <= j < k ==> haystack@[j] != needle,
            None => forall|j: int| 0 <= j < haystack@.len() ==> haystack@[j] != needle,
        },
;

pub proof fn lemma_next_byte_bounds(s: Seq<u8>, b: u8, i: int)
    requires
        0 <= i <= s.len(),
    ensures
        i <= next_byte(s, b, i) <= s.len(),
        next_byte(s, b, i) < s.len() ==> s[next_byte(s, b, i)] == b,
        forall|j: int| i <= j < next_byte(s, b, i) ==> s[j] != b,
    decreases s.len() - i,
{
    if i < s.len() && s[i] != b {
        lemma_next_byte_bounds(s, b, i + 1);
    }
}

/// Finds the end of the line that starts at `start`: the index of the next
/// newline, or `data.len()` when the line is the last one.
pub fn line_end(data: &[u8], start: usize) -> (end: usize)
    requires
        start <= data@.len(),
    ensures
        end == next_byte(data@, 10u8, start as int),
{
    proof { lemma_next_byte_bounds(data@, 10u8, start as int); }
    let rest = &data[start..data.len()];
    match memchr::memchr(10u8, rest) {
        Some(pos) => {
            proof {
                assert forall|j: int| start <= j < start + pos implies data@[j] != 10u8 by {
                    assert(rest@[j - start] == data@[j]);
                }
                lemma_next_byte_unique(data@, 10u8, start as int, (start + pos) as int);
            }
            start + pos
        },
        None => {
            proof {
                assert forall|j: int| start <= j < data@.len() implies data@[j] != 10u8 by {
                    assert(rest@[j - start] == data@[j]);
                }
                lemma_next_byte_unique(data@, 10u8, start as int, data@.len() as int);
            }
            data.len()
        },
    }
}

/// `next_byte` is characterised by its bounds.
pub proof fn lemma_next_byte_unique(s: Seq<u8>, b: u8, i: int, k: int)
    requires
        0 <= i <= k <= s.len(),
        k < s.len() ==> s[k] == b,
        forall|j: int| i <= j < k ==> s[j] != b,
    ensures
        next_byte(s, b, i) == k,
    decreases k - i,
{
    if i < k {
        lemma_next_byte_unique(s, b, i + 1, k);
    }
}

} // verus!

verus! {

pub proof fn lemma_count_byte_append(a: Seq<u8>, c: Seq<u8>, b: u8)
    ensures
        count_byte(a + c, b) == count_byte(a, b) + count_byte(c, b),
    decreases c.len(),
{
    if c.len() > 0 {
        assert((a + c).drop_last() == a + c.drop_last());
        lemma_count_byte_append(a, c.drop_last(), b);
    } else {
        assert(a + c == a);
    }
}

/// Counting over a prefix grows by one position at a time.
pub proof fn lemma_count_take_step(d: Seq<u8>, k: int, b: u8)
    requires
        0 <= k < d.len(),
    ensures
        count_byte(d.take(k + 1), b) == count_byte(d.take(k), b) + if d[k] == b { 1int } else { 0int },
{
    assert(d.take(k + 1).drop_last() == d.take(k));
}

/// A stretch without `b` adds nothing to the count.
pub proof fn lemma_count_take_skip(d: Seq<u8>, s: int, e: int, b: u8)
    requires
        0 <= s <= e <= d.len(),
        forall|j: int| s <= j < e ==> d[j] != b,
    ensures
        count_byte(d.take(e), b) == count_byte(d.take(s), b),
    decreases e - s,
{
    if s < e {
        lemma_count_take_step(d, e - 1, b);
        lemma_count_take_skip(d, s, e - 1, b);
    }
}

/// The count over a stretch is the difference of the counts over prefixes.
pub proof fn lemma_count_subrange(d: Seq<u8>, s: int, e: int, b: u8)
    requires
        0 <= s <= e <= d.len(),
    ensures
        count_byte(d.take(e), b) == count_byte(d.take(s), b) + count_byte(d.subrange(s, e), b),
        count_byte(d.take(e), b) <= count_byte(d, b),
{
    assert(d.take(e) == d.take(s) + d.subrange(s, e));
    lemma_count_byte_append(d.take(s), d.subrange(s, e), b);
    assert(d == d.take(e) + d.subrange(e, d.len() as int));
    lemma_count_byte_append(d.take(e), d.subrange(e, d.len() as int), b);
}

/// `next_byte` never goes back, whatever the start.
pub proof fn lemma_next_byte_forward(s: Seq<u8>, b: u8, i: int)
    ensures
        next_byte(s, b, i) < s.len() ==> i <= next_byte(s, b, i),
        next_byte(s, b, i) <= s.len() || i > s.len(),
    decreases s.len() - i,
{
    if i < s.len() && s[i] != b {
        lemma_next_byte_forward(s, b, i + 1);
    }
}

/// Specification of `memchr::memrchr`: the last occurrence of a byte.
pub assume_specification[ memchr::memrchr ](needle: u8, haystack: &[u8]) -> (r: Option<usize>)
    ensures
        match r {
            Some(k) => k < haystack@.len() && haystack@[k as int] == needle
                && forall|j: int| k < j < haystack@.len() ==> haystack@[j] != needle,
            None => forall|j: int| 0 <= j < haystack@.len() ==> haystack@[j] != needle,
        },
;

/// `memchr::memchr_iter(needle, haystack).count()`: the number of
/// occurrences of a byte.
#[verifier::external_body]
pub(crate) fn count_occurrences(needle: u8, haystack: &[u8]) -> (r: usize)
    ensures
        r == count_byte(haystack@, needle),
{
    memchr::memchr_iter(needle, haystack).count()
}

} // verus!
