//! Laws of the line search: the literal path selects the same lines as
//! checking each line; the prefix path does too wherever every line the
//! regex accepts contains the prefix (a premise stated on each law that
//! needs it, since which texts the regex accepts is the regex crate's);
//! highlight ranges never change which lines are reported; and a search and
//! its inverse split the lines between them. Empty input has no lines.

use crate::bytes::count_byte;
use crate::bytes::lemma_count_byte_append;
use crate::bytes::lemma_next_byte_bounds;
use crate::finder::contains;
use crate::finder::first_occurrence_from;
use crate::finder::lemma_first_occurrence_from;
use crate::finder::lemma_occurrences_from;
use crate::finder::occurrences_from;
use crate::finder::occurs_at;
use crate::finder::step;
use crate::pattern::CompiledPattern;
use crate::searcher::hit_by_scan;
use crate::searcher::is_line_start;
use crate::searcher::lemma_line_step;
use crate::searcher::lemma_scan_unfold;
use crate::searcher::line_end_at;
use crate::searcher::literal_ranges;
use crate::searcher::mode_keep;
use crate::searcher::mode_ranges;
use crate::searcher::prefix_keep;
use crate::searcher::scan_hits;
use crate::searcher::scan_lines;
use crate::searcher::selects;
use crate::searcher::spec_count;
use crate::searcher::spec_search;
use crate::searcher::strip_terminator;
use vstd::prelude::*;

verus! {

/// `n` holds no newline byte.
pub open spec fn newline_free(n: Seq<u8>) -> bool {
    forall|i: int| 0 <= i < n.len() ==> n[i] != 10u8
}

/// The number of lines of a buffer (after its final terminator is dropped):
/// one more than its newlines.
pub open spec fn line_count(d: Seq<u8>) -> int {
    count_byte(d, 10u8) + 1int
}

/// The number of lines of input data: none in an empty buffer, else those of
/// the buffer without its final `\n`.
pub open spec fn data_line_count(data: Seq<u8>) -> int {
    if data.len() == 0 {
        0
    } else {
        line_count(strip_terminator(data))
    }
}

/// A line holds no newline byte.
pub proof fn lemma_line_newline_free(d: Seq<u8>, s: int)
    requires
        0 <= s <= d.len(),
    ensures
        newline_free(d.subrange(s, line_end_at(d, s))),
{
    lemma_next_byte_bounds(d, 10u8, s);
}

/// A needle contained in a newline-free text is newline-free.
pub proof fn lemma_contained_newline_free(h: Seq<u8>, n: Seq<u8>)
    requires
        newline_free(h),
        contains(h, n),
    ensures
        newline_free(n),
{
    let j = choose|j: int| occurs_at(h, n, j);
    assert forall|i: int| 0 <= i < n.len() implies n[i] != 10u8 by {
        assert(h.subrange(j, j + n.len())[i] == h[j + i]);
    }
}

/// The scan of `n` from `i` (a position no later than the line start `s`)
/// reports a position between `s` and any occurrence `t` in that line or
/// later: a newline-free needle cannot straddle the line start.
proof fn lemma_scan_reaches(d: Seq<u8>, n: Seq<u8>, i: int, s: int, t: int)
    requires
        newline_free(n),
        0 <= i <= s <= t,
        occurs_at(d, n, t),
        s == 0 || (0 < s <= d.len() && d[s - 1] == 10u8),
    ensures
        exists|k: int| 0 <= k < occurrences_from(d, n, i).len()
            && s <= #[trigger] occurrences_from(d, n, i)[k] <= t,
    decreases d.len() + 1 - i,
{
    lemma_first_occurrence_from(d, n, i);
    let k0 = first_occurrence_from(d, n, i).unwrap();
    let rest = occurrences_from(d, n, k0 + step(n));
    assert(occurrences_from(d, n, i) == seq![k0].add(rest));
    if k0 >= s {
        assert(occurrences_from(d, n, i)[0] == k0);
    } else {
        if n.len() > 0 && k0 + n.len() > s {
            // The occurrence at k0 would cover the newline before s.
            assert(d.subrange(k0, k0 + n.len())[s - 1 - k0] == d[s - 1]);
            assert(n[s - 1 - k0] == 10u8);
        }
        lemma_scan_reaches(d, n, k0 + step(n), s, t);
        let k = choose|k: int| 0 <= k < rest.len() && s <= #[trigger] rest[k] <= t;
        assert(occurrences_from(d, n, i)[k + 1] == rest[k]);
    }
}

/// Law: the whole-buffer scan of a newline-free needle hits exactly the
/// lines that contain the needle.
pub proof fn lemma_scan_hits_line(d: Seq<u8>, n: Seq<u8>, s: int)
    requires
        newline_free(n),
        is_line_start(d, s),
        0 <= s <= d.len(),
    ensures
        hit_by_scan(d, n)(s, line_end_at(d, s)) <==> contains(d.subrange(s, line_end_at(d, s)), n),
{
    let e = line_end_at(d, s);
    let line = d.subrange(s, e);
    lemma_next_byte_bounds(d, 10u8, s);
    lemma_occurrences_from(d, n, 0);
    if hit_by_scan(d, n)(s, e) {
        let k = choose|k: int| 0 <= k < scan_hits(d, n).len() && s <= #[trigger] scan_hits(d, n)[k] <= e;
        let h = scan_hits(d, n)[k];
        assert(occurs_at(d, n, h));
        if n.len() == 0 {
            assert(occurs_at(line, n, 0)) by {
                assert(line.subrange(0, 0) =~= n);
            }
        } else {
            if h + n.len() > e {
                if e < d.len() {
                    assert(d.subrange(h, h + n.len())[e - h] == d[e]);
                    assert(n[e - h] == 10u8);
                }
            }
            assert(occurs_at(line, n, h - s)) by {
                assert(line.subrange(h - s, h - s + n.len()) =~= d.subrange(h, h + n.len()));
            }
        }
    }
    if contains(line, n) {
        let j = choose|j: int| occurs_at(line, n, j);
        assert(occurs_at(d, n, s + j)) by {
            assert(line.subrange(j, j + n.len()) =~= d.subrange(s + j, s + j + n.len()));
        }
        lemma_scan_reaches(d, n, 0, s, s + j);
        let k = choose|k: int| 0 <= k < occurrences_from(d, n, 0).len()
            && s <= #[trigger] occurrences_from(d, n, 0)[k] <= s + j;
        assert(s <= scan_hits(d, n)[k] <= e);
    }
}

/// Two selections that agree on every line from `s` on give the same scan.
pub proof fn lemma_scan_congruent(
    d: Seq<u8>,
    s: int,
    k1: spec_fn(int, int) -> bool,
    k2: spec_fn(int, int) -> bool,
    r: spec_fn(int, int) -> Seq<(int, int)>,
)
    requires
        is_line_start(d, s),
        0 <= s <= d.len(),
        forall|x: int| #![trigger is_line_start(d, x)] is_line_start(d, x) && s <= x <= d.len()
            ==> k1(x, line_end_at(d, x)) == k2(x, line_end_at(d, x)),
    ensures
        scan_lines(d, s, k1, r) == scan_lines(d, s, k2, r),
    decreases d.len() + 1 - s,
{
    let e = line_end_at(d, s);
    assert(is_line_start(d, s));
    if e < d.len() {
        lemma_line_step(d, s);
        lemma_scan_congruent(d, e + 1, k1, k2, r);
    }
}

/// A scan and the scan of the opposite selection report every line between
/// them, once.
pub proof fn lemma_scan_complement(
    d: Seq<u8>,
    s: int,
    k: spec_fn(int, int) -> bool,
    nk: spec_fn(int, int) -> bool,
    r1: spec_fn(int, int) -> Seq<(int, int)>,
    r2: spec_fn(int, int) -> Seq<(int, int)>,
)
    requires
        0 <= s <= d.len(),
        forall|a: int, b: int| #[trigger] nk(a, b) == !k(a, b),
    ensures
        scan_lines(d, s, k, r1).len() + scan_lines(d, s, nk, r2).len()
            == count_byte(d.subrange(s, d.len() as int), 10u8) + 1,
    decreases d.len() + 1 - s,
{
    let e = line_end_at(d, s);
    lemma_next_byte_bounds(d, 10u8, s);
    lemma_scan_unfold(d, s, k, r1);
    lemma_scan_unfold(d, s, nk, r2);
    assert(nk(s, e) == !k(s, e));
    let tail = d.subrange(s, d.len() as int);
    if e >= d.len() {
        assert(count_byte(tail, 10u8) == 0) by {
            lemma_count_none(tail);
        }
    } else {
        lemma_scan_complement(d, e + 1, k, nk, r1, r2);
        let head = d.subrange(s, e + 1);
        let rest = d.subrange(e + 1, d.len() as int);
        assert(tail =~= head + rest);
        lemma_count_byte_append(head, rest, 10u8);
        assert(head =~= d.subrange(s, e).push(10u8));
        lemma_count_none(d.subrange(s, e));
        assert(count_byte(head, 10u8) == 1) by {
            assert(head.drop_last() == d.subrange(s, e));
        }
    }
}

/// A stretch without newlines counts none.
proof fn lemma_count_none(t: Seq<u8>)
    requires
        forall|j: int| 0 <= j < t.len() ==> t[j] != 10u8,
    ensures
        count_byte(t, 10u8) == 0,
    decreases t.len(),
{
    if t.len() > 0 {
        lemma_count_none(t.drop_last());
    }
}

/// The lines a scan reports do not depend on the highlight ranges attached
/// to them: same number, same lines, numbers and offsets.
pub proof fn lemma_scan_ranges_free(
    d: Seq<u8>,
    s: int,
    k: spec_fn(int, int) -> bool,
    r1: spec_fn(int, int) -> Seq<(int, int)>,
    r2: spec_fn(int, int) -> Seq<(int, int)>,
)
    requires
        0 <= s,
    ensures
        scan_lines(d, s, k, r1).len() == scan_lines(d, s, k, r2).len(),
        forall|i: int| 0 <= i < scan_lines(d, s, k, r1).len() ==> {
            let a = #[trigger] scan_lines(d, s, k, r1)[i];
            let b = scan_lines(d, s, k, r2)[i];
            &&& a.line_no == b.line_no
            &&& a.line == b.line
            &&& a.byte_offset == b.byte_offset
            &&& a.line_len == b.line_len
        },
    decreases d.len() + 1 - s,
{
    if s <= d.len() {
        let e = line_end_at(d, s);
        lemma_next_byte_bounds(d, 10u8, s);
        if e < d.len() {
            lemma_scan_ranges_free(d, e + 1, k, r1, r2);
        }
    }
}

/// Law: a count is the number of lines the search reports, whether or not
/// highlight ranges are computed; the lines themselves do not change.
pub proof fn lemma_count_is_search_len(data: Seq<u8>, p: CompiledPattern, invert: bool, need_ranges: bool)
    ensures
        spec_search(data, p, invert, need_ranges).len() == spec_count(data, p, invert),
        forall|i: int| 0 <= i < spec_count(data, p, invert) ==> {
            let a = #[trigger] spec_search(data, p, invert, need_ranges)[i];
            let b = spec_search(data, p, invert, false)[i];
            &&& a.line_no == b.line_no
            &&& a.line == b.line
            &&& a.byte_offset == b.byte_offset
        },
{
    let d = strip_terminator(data);
    lemma_scan_ranges_free(d, 0, mode_keep(d, p, invert), mode_ranges(d, p, invert, need_ranges),
        mode_ranges(d, p, invert, false));
}

/// Law: for a literal pattern whose needle holds no newline, the
/// whole-buffer scan selects exactly the lines that a line-by-line check
/// selects (the lines that contain the needle).
pub proof fn lemma_literal_search_is_line_search(data: Seq<u8>, p: CompiledPattern, need_ranges: bool)
    requires
        p.literal_needle() is Some,
        newline_free(p.literal_needle().unwrap()),
    ensures
        ({
            let d = strip_terminator(data);
            spec_search(data, p, false, need_ranges) == if data.len() == 0 {
                Seq::empty()
            } else {
                scan_lines(d, 0, selects(d, p, false), literal_ranges(d, p.literal_needle().unwrap(), need_ranges))
            }
        }),
{
    let d = strip_terminator(data);
    let n = p.literal_needle().unwrap();
    assert(is_line_start(d, 0));
    assert forall|x: int| #![trigger is_line_start(d, x)] is_line_start(d, x) && 0 <= x <= d.len()
        implies mode_keep(d, p, false)(x, line_end_at(d, x)) == selects(d, p, false)(x, line_end_at(d, x)) by {
        lemma_scan_hits_line(d, n, x);
    }
    lemma_scan_congruent(d, 0, mode_keep(d, p, false), selects(d, p, false),
        mode_ranges(d, p, false, need_ranges));
}

/// Law: when every line the regex accepts contains the literal prefix (as
/// the prefix is chosen to ensure), the prefix-accelerated search selects
/// exactly the lines the regex accepts.
pub proof fn lemma_prefix_search_is_line_search(data: Seq<u8>, p: CompiledPattern, need_ranges: bool)
    requires
        p.literal_needle() is None,
        p.prefix_needle() is Some,
        forall|h: Seq<u8>| #[trigger] p.regex_accepts(h) ==> contains(h, p.prefix_needle().unwrap()),
    ensures
        ({
            let d = strip_terminator(data);
            spec_search(data, p, false, need_ranges) == if data.len() == 0 {
                Seq::empty()
            } else {
                scan_lines(d, 0, selects(d, p, false), mode_ranges(d, p, false, need_ranges))
            }
        }),
{
    let d = strip_terminator(data);
    let pf = p.prefix_needle().unwrap();
    assert(is_line_start(d, 0));
    assert forall|x: int| #![trigger is_line_start(d, x)] is_line_start(d, x) && 0 <= x <= d.len()
        implies mode_keep(d, p, false)(x, line_end_at(d, x)) == selects(d, p, false)(x, line_end_at(d, x)) by {
        let line = d.subrange(x, line_end_at(d, x));
        assert(prefix_keep(d, p, pf)(x, line_end_at(d, x)) == (hit_by_scan(d, pf)(x, line_end_at(d, x))
            && p.regex_accepts(line)));
        if p.regex_accepts(line) {
            assert(contains(line, pf));
            lemma_line_newline_free(d, x);
            lemma_contained_newline_free(line, pf);
            lemma_scan_hits_line(d, pf, x);
        }
    }
    lemma_scan_congruent(d, 0, mode_keep(d, p, false), selects(d, p, false),
        mode_ranges(d, p, false, need_ranges));
}

/// Law: a search and the inverted search (`-v`) split the lines between
/// them: their counts add up to the number of lines (none in empty input).
/// For a literal pattern the needle must hold no newline; for a pattern
/// searched through its literal prefix, every line the regex accepts must
/// contain the prefix.
pub proof fn lemma_invert_complement(data: Seq<u8>, p: CompiledPattern)
    requires
        p.literal_needle() is Some ==> newline_free(p.literal_needle().unwrap()),
        p.literal_needle() is None && p.prefix_needle() is Some ==> forall|h: Seq<u8>|
            #[trigger] p.regex_accepts(h) ==> contains(h, p.prefix_needle().unwrap()),
    ensures
        spec_count(data, p, false) + spec_count(data, p, true) == data_line_count(data),
{
    if data.len() > 0 {
        let d = strip_terminator(data);
        let sel = selects(d, p, false);
        let inv = selects(d, p, true);
        let r = mode_ranges(d, p, false, false);
        let ri = mode_ranges(d, p, true, false);
        if p.literal_needle() is Some {
            lemma_literal_search_is_line_search(data, p, false);
        } else if p.prefix_needle() is Some {
            lemma_prefix_search_is_line_search(data, p, false);
        }
        assert(spec_search(data, p, false, false) == scan_lines(d, 0, sel, r));
        assert(spec_search(data, p, true, false) == scan_lines(d, 0, inv, ri));
        assert forall|a: int, b: int| #[trigger] inv(a, b) == !sel(a, b) by {}
        lemma_scan_complement(d, 0, sel, inv, r, ri);
        assert(d.subrange(0, d.len() as int) =~= d);
    }
}


/// A scan that keeps every line reports one record per line.
proof fn lemma_scan_all(d: Seq<u8>, s: int, k: spec_fn(int, int) -> bool, r: spec_fn(int, int) -> Seq<(int, int)>)
    requires
        0 <= s <= d.len(),
        forall|a: int, b: int| #[trigger] k(a, b),
    ensures
        scan_lines(d, s, k, r).len() == count_byte(d.subrange(s, d.len() as int), 10u8) + 1,
{
    let nk = |a: int, b: int| false;
    lemma_scan_complement(d, s, k, nk, r, r);
    lemma_scan_none(d, s, nk, r);
}

/// A scan that keeps no line reports nothing.
proof fn lemma_scan_none(d: Seq<u8>, s: int, k: spec_fn(int, int) -> bool, r: spec_fn(int, int) -> Seq<(int, int)>)
    requires
        0 <= s,
        forall|a: int, b: int| !#[trigger] k(a, b),
    ensures
        scan_lines(d, s, k, r).len() == 0,
    decreases d.len() + 1 - s,
{
    if s <= d.len() {
        lemma_next_byte_bounds(d, 10u8, s);
        lemma_scan_unfold(d, s, k, r);
        let e = line_end_at(d, s);
        assert(!k(s, e));
        if e < d.len() {
            lemma_scan_none(d, e + 1, k, r);
        }
    }
}

/// Law: an empty pattern selects every line; the inverted search selects
/// none.
pub proof fn lemma_empty_pattern_selects_every_line(data: Seq<u8>, p: CompiledPattern)
    requires
        p.literal_needle() == Some(Seq::<u8>::empty()),
    ensures
        spec_count(data, p, false) == data_line_count(data),
        spec_count(data, p, true) == 0,
{
    if data.len() > 0 {
        let d = strip_terminator(data);
        let n = Seq::<u8>::empty();
        lemma_literal_search_is_line_search(data, p, false);
        assert forall|a: int, b: int| #[trigger] selects(d, p, false)(a, b) by {
            assert(occurs_at(d.subrange(a, b), n, 0)) by {
                assert(d.subrange(a, b).subrange(0, 0) =~= n);
            }
        }
        lemma_scan_all(d, 0, selects(d, p, false), mode_ranges(d, p, false, false));
        assert(d.subrange(0, d.len() as int) =~= d);
        assert forall|a: int, b: int| !#[trigger] selects(d, p, true)(a, b) by {
            assert(occurs_at(d.subrange(a, b), n, 0)) by {
                assert(d.subrange(a, b).subrange(0, 0) =~= n);
            }
        }
        lemma_scan_none(d, 0, selects(d, p, true), mode_ranges(d, p, true, false));
    }
}

} // verus!
