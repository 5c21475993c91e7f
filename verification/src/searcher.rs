//! Line search over an in-memory buffer: which lines match, their numbers,
//! offsets and highlight ranges, and how many there are.
//!
//! A buffer is read as lines separated by `\n`, after dropping one final
//! line terminator. Every search path of this module is specified against
//! the same line model, [`scan_lines`].

use crate::bytes::count_byte;
use crate::bytes::count_occurrences;
use crate::bytes::lemma_count_byte_append;
use crate::bytes::lemma_count_subrange;
use crate::bytes::lemma_count_take_skip;
use crate::bytes::lemma_count_take_step;
use crate::bytes::lemma_next_byte_bounds;
use crate::bytes::lemma_next_byte_forward;
use crate::bytes::line_end;
use crate::bytes::next_byte;
use crate::finder::LiteralFinder;
use crate::finder::contains;
use crate::finder::first_occurrence_from;
use crate::finder::lemma_first_occurrence_from;
use crate::finder::lemma_occurrences_from;
use crate::finder::occurrence_ranges;
use crate::finder::occurrences_from;
use crate::finder::step;
use crate::finder::occurs_at;
use crate::finder::ordered_ranges;
use crate::finder::ranges_view;
use crate::output::FormatOutcome;
use crate::output::format_output;
use crate::output::format_result;
use crate::output::lemma_format_some;
use crate::output::OutputConfig;
use crate::output::append_bytes;
use crate::output::color_filename;
use crate::output::color_reset;
use crate::output::color_sep;
use crate::output::filename_text;
use crate::output::lemma_matched_lines_some;
use crate::output::matched_lines_output;
use crate::output::opt_view;
use crate::output::write_line_matches;
use crate::output::write_names;
use crate::output::write_count;
use crate::output::names_output;
use crate::output::count_output;
use crate::output::capped_count;
use crate::pattern::CompiledPattern;
use crate::regex_engine::regex_find_all;
use core::ops::Range;
use vstd::prelude::*;

verus! {

/// The abstract value of a [`LineMatch`].
pub struct LineMatchView {
    pub line_no: u32,
    pub line: Seq<u8>,
    pub match_ranges: Seq<(int, int)>,
    pub byte_offset: u64,
    pub line_len: u32,
}

/// A single matching (or, with `-v`, non-matching) line.
pub struct LineMatch {
    pub line_no: u32,
    pub line: Vec<u8>,
    pub match_ranges: Vec<Range<usize>>,
    pub byte_offset: u64,
    pub line_len: u32,
}

impl View for LineMatch {
    type V = LineMatchView;

    open spec fn view(&self) -> LineMatchView {
        LineMatchView {
            line_no: self.line_no,
            line: self.line@,
            match_ranges: ranges_view(self.match_ranges@),
            byte_offset: self.byte_offset,
            line_len: self.line_len,
        }
    }
}

/// A match that can be written: its ranges are ordered inside the line and
/// its end offset fits in 64 bits.
pub open spec fn writable(m: LineMatchView) -> bool {
    &&& ordered_ranges(m.match_ranges, m.line.len() as int)
    &&& m.byte_offset + m.line.len() <= u64::MAX
}

/// Every match of a list can be written.
pub open spec fn all_writable(ms: Seq<LineMatchView>) -> bool {
    forall|i: int| 0 <= i < ms.len() ==> writable(#[trigger] ms[i])
}

/// The views of a list of matches.
pub open spec fn matches_view(v: Seq<LineMatch>) -> Seq<LineMatchView> {
    v.map_values(|m: LineMatch| m@)
}

/// Aggregated search results for a single file.
///
/// When the file is binary, `is_binary` is set and the matches carry no
/// line content.
pub struct FileResult {
    pub path: Vec<u8>,
    pub matches: Vec<LineMatch>,
    pub is_binary: bool,
}

/// The buffer without one final `\n`.
pub open spec fn strip_terminator(d: Seq<u8>) -> Seq<u8> {
    if d.len() > 0 && d.last() == 10u8 {
        d.drop_last()
    } else {
        d
    }
}

/// `s` is where a line starts: the buffer start or just after a newline.
pub open spec fn is_line_start(d: Seq<u8>, s: int) -> bool {
    s == 0 || (0 < s <= d.len() && d[s - 1] == 10u8)
}

/// The number (from 1) of the line that starts at `s`.
pub open spec fn line_number_at(d: Seq<u8>, s: int) -> int {
    1 + count_byte(d.take(s), 10u8) as int
}

/// The end of the line that starts at `s`.
pub open spec fn line_end_at(d: Seq<u8>, s: int) -> int {
    next_byte(d, 10u8, s)
}

/// The record of the line that starts at `s`.
pub open spec fn line_record(d: Seq<u8>, s: int, ranges: Seq<(int, int)>) -> LineMatchView {
    let e = line_end_at(d, s);
    LineMatchView {
        line_no: line_number_at(d, s) as u32,
        line: d.subrange(s, e),
        match_ranges: ranges,
        byte_offset: s as u64,
        line_len: (e - s) as u32,
    }
}

/// The records of the lines from the one starting at `s` to the last,
/// keeping those whose span `(start, end)` satisfies `keep`, with highlight
/// ranges given by `ranges`.
pub open spec fn scan_lines(
    d: Seq<u8>,
    s: int,
    keep: spec_fn(int, int) -> bool,
    ranges: spec_fn(int, int) -> Seq<(int, int)>,
) -> Seq<LineMatchView>
    decreases d.len() + 1 - s,
{
    if s < 0 || s > d.len() {
        Seq::empty()
    } else {
        let e = line_end_at(d, s);
        let here = if keep(s, e) {
            seq![line_record(d, s, ranges(s, e))]
        } else {
            Seq::empty()
        };
        if e >= d.len() {
            here
        } else {
            proof { lemma_next_byte_bounds(d, 10u8, s); }
            here + scan_lines(d, e + 1, keep, ranges)
        }
    }
}

/// No highlight ranges.
pub open spec fn no_ranges() -> spec_fn(int, int) -> Seq<(int, int)> {
    |s: int, e: int| Seq::<(int, int)>::empty()
}

/// The regex's matches in a line, as ranges.
pub open spec fn regex_ranges(p: CompiledPattern, l: Seq<u8>) -> Seq<(int, int)> {
    regex_find_all(p.regex_source(), p.regex_ignore_case(), l).map_values(
        |m: (usize, usize)| (m.0 as int, m.1 as int),
    )
}

/// Lines of `d` selected by the pattern, or with `invert` those it rejects.
pub open spec fn selects(d: Seq<u8>, p: CompiledPattern, invert: bool) -> spec_fn(int, int) -> bool {
    |s: int, e: int| p.spec_is_match(d.subrange(s, e)) != invert
}

/// Highlight ranges of the line-by-line search: the regex's matches, only
/// when asked for and not inverting.
pub open spec fn line_ranges(d: Seq<u8>, p: CompiledPattern, invert: bool, need_ranges: bool) -> spec_fn(int, int) -> Seq<(int, int)> {
    |s: int, e: int| if need_ranges && !invert { regex_ranges(p, d.subrange(s, e)) } else { Seq::empty() }
}

/// The line numbers of `d` fit in a `u32`.
pub open spec fn line_numbers_fit(d: Seq<u8>) -> bool {
    count_byte(d, 10u8) < 0xffff_ffff
}

/// Strips a trailing `\n` line terminator.
pub fn strip_line_terminator(data: &[u8]) -> (r: &[u8])
    ensures
        r@ == strip_terminator(data@),
{
    let n = data.len();
    if n > 0 && data[n - 1] == 10u8 {
        &data[0..n - 1]
    } else {
        data
    }
}

/// Returns `true` if `data` contains a NUL byte (matches GNU grep behaviour).
pub fn is_binary(data: &[u8]) -> (r: bool)
    ensures
        r <==> exists|i: int| 0 <= i < data@.len() && data@[i] == 0u8,
{
    match memchr::memchr(0u8, data) {
        Some(k) => {
            assert(data@[k as int] == 0u8);
            true
        },
        None => false,
    }
}

pub proof fn lemma_line_step(d: Seq<u8>, s: int)
    requires
        is_line_start(d, s),
        0 <= s <= d.len(),
        line_end_at(d, s) < d.len(),
    ensures
        is_line_start(d, line_end_at(d, s) + 1),
        s <= line_end_at(d, s),
        line_number_at(d, line_end_at(d, s) + 1) == line_number_at(d, s) + 1,
{
    let e = line_end_at(d, s);
    lemma_next_byte_bounds(d, 10u8, s);
    lemma_count_take_skip(d, s, e, 10u8);
    lemma_count_take_step(d, e, 10u8);
}

/// Line numbers stay within the count of newlines plus one.
pub proof fn lemma_line_number_bound(d: Seq<u8>, s: int)
    requires
        0 <= s <= d.len(),
    ensures
        1 <= line_number_at(d, s) <= count_byte(d, 10u8) + 1,
{
    lemma_count_subrange(d, 0, s, 10u8);
}

/// Unfolds one step of [`scan_lines`] from a line start.
pub proof fn lemma_scan_unfold(
    d: Seq<u8>,
    s: int,
    keep: spec_fn(int, int) -> bool,
    ranges: spec_fn(int, int) -> Seq<(int, int)>,
)
    requires
        0 <= s <= d.len(),
    ensures
        ({
            let e = line_end_at(d, s);
            let here = if keep(s, e) {
                seq![line_record(d, s, ranges(s, e))]
            } else {
                Seq::empty()
            };
            scan_lines(d, s, keep, ranges) == if e >= d.len() {
                here
            } else {
                here + scan_lines(d, e + 1, keep, ranges)
            }
        }),
{
}

/// Line-by-line search for regex patterns and invert-match mode.
fn search_bytes_line_by_line(
    data: &[u8],
    pattern: &CompiledPattern,
    invert_match: bool,
    need_ranges: bool,
) -> (r: Vec<LineMatch>)
    requires
        line_numbers_fit(data@),
    ensures
        matches_view(r@) == scan_lines(
            data@,
            0,
            selects(data@, *pattern, invert_match),
            line_ranges(data@, *pattern, invert_match, need_ranges),
        ),
        all_writable(matches_view(r@)),
{
    let ghost keep = selects(data@, *pattern, invert_match);
    let ghost rng = line_ranges(data@, *pattern, invert_match, need_ranges);
    let ghost total = scan_lines(data@, 0, keep, rng);
    let mut matches: Vec<LineMatch> = Vec::new();
    let mut line_no: u32 = 1;
    let mut start: usize = 0;
    let n = data.len();
    assert(data@.take(0) == Seq::<u8>::empty());
    loop
        invariant
            n == data@.len(),
            line_numbers_fit(data@),
            keep == selects(data@, *pattern, invert_match),
            rng == line_ranges(data@, *pattern, invert_match, need_ranges),
            total == scan_lines(data@, 0, keep, rng),
            start <= n,
            is_line_start(data@, start as int),
            line_no == line_number_at(data@, start as int),
            matches_view(matches@) + scan_lines(data@, start as int, keep, rng) == total,
            all_writable(matches_view(matches@)),
        decreases n - start,
    {
        let end = line_end(data, start);
        proof {
            lemma_next_byte_bounds(data@, 10u8, start as int);
            lemma_scan_unfold(data@, start as int, keep, rng);
            lemma_line_number_bound(data@, start as int);
        }
        let line_bytes = &data[start..end];
        let line_len = #[verifier::truncate] (line_bytes.len() as u32);
        let is_match = pattern.is_match(line_bytes);
        let should_include = if invert_match { !is_match } else { is_match };
        let ghost before = matches_view(matches@);
        if should_include {
            let match_ranges = if need_ranges && !invert_match {
                pattern.regex_find_all(line_bytes)
            } else {
                Vec::new()
            };
            let m = LineMatch {
                line_no,
                line: vstd::slice::slice_to_vec(line_bytes),
                match_ranges,
                byte_offset: start as u64,
                line_len,
            };
            proof {
                assert(ranges_view(m.match_ranges@) == rng(start as int, end as int)) by {
                    if need_ranges && !invert_match {
                        assert(ranges_view(m.match_ranges@) =~= regex_ranges(*pattern, line_bytes@));
                    }
                }
                assert(m@ == line_record(data@, start as int, rng(start as int, end as int)));
            }
            matches.push(m);
            assert(matches_view(matches@) == before.push(m@));
        }
        if end == n {
            assert(matches_view(matches@) == total);
            return matches;
        }
        proof {
            lemma_line_step(data@, start as int);
            lemma_line_number_bound(data@, end + 1);
        }
        start = end + 1;
        line_no = line_no + 1;
    }
}

/// The positions reported by the whole-buffer occurrence scan of `n` in `d`.
pub open spec fn scan_hits(d: Seq<u8>, n: Seq<u8>) -> Seq<int> {
    occurrences_from(d, n, 0)
}

/// The line spanning `[s, e]` (its newline included) holds a position
/// reported by the whole-buffer scan of `n`.
pub open spec fn hit_by_scan(d: Seq<u8>, n: Seq<u8>) -> spec_fn(int, int) -> bool {
    |s: int, e: int| exists|k: int| 0 <= k < scan_hits(d, n).len() && s <= #[trigger] scan_hits(d, n)[k] <= e
}

/// Where the next unhandled line starts, given the start of the last line
/// handled (`usize::MAX` before the first).
pub open spec fn next_unhandled(d: Seq<u8>, last: usize) -> int {
    if last == usize::MAX { 0 } else { line_end_at(d, last as int) + 1 }
}

/// The state of a whole-buffer scan: the hits already handled lie before the
/// next unhandled line, and the hits still to come are those found from `pos`.
pub open spec fn hit_scan_state(d: Seq<u8>, n: Seq<u8>, last: usize, pos: int, handled: Seq<int>) -> bool {
    &&& last == usize::MAX || (is_line_start(d, last as int) && last <= d.len() && last < pos)
    &&& 0 <= pos
    &&& scan_hits(d, n) == handled + occurrences_from(d, n, pos)
    &&& forall|k: int| 0 <= k < handled.len() ==> #[trigger] handled[k] < next_unhandled(d, last)
}

/// The start of the line that holds position `p`.
fn line_start_of(data: &[u8], p: usize) -> (r: usize)
    requires
        p <= data@.len(),
    ensures
        is_line_start(data@, r as int),
        r <= p,
        forall|j: int| r <= j < p ==> data@[j] != 10u8,
        p <= line_end_at(data@, r as int),
{
    let r = match memchr::memrchr(10u8, &data[0..p]) {
        Some(k) => k + 1,
        None => 0,
    };
    proof {
        assert forall|j: int| r <= j < p implies data@[j] != 10u8 by {
            assert(data@[j] == data@.subrange(0, p as int)[j]);
        }
        lemma_next_byte_bounds(data@, 10u8, r as int);
        if line_end_at(data@, r as int) < p {
            assert(data@[line_end_at(data@, r as int)] == 10u8);
        }
    }
    r
}

/// Advances a whole-buffer scan of the needle to the next line that holds a
/// hit and that was not handled yet: hits inside the last handled line are
/// passed over. Returns that line's start and end, and the new search
/// position.
fn next_hit_line(
    data: &[u8],
    finder: &LiteralFinder,
    pos: usize,
    last: usize,
    Ghost(handled): Ghost<Seq<int>>,
) -> (r: (Option<(usize, usize)>, usize, Ghost<Seq<int>>))
    requires
        data@.len() < usize::MAX,
        pos <= data@.len() + 1,
        hit_scan_state(data@, finder@, last, pos as int, handled),
    ensures
        r.1 <= data@.len() + 1,
        match r.0 {
            None => scan_hits(data@, finder@) == r.2@
                && forall|k: int| 0 <= k < r.2@.len() ==> #[trigger] r.2@[k] < next_unhandled(data@, last),
            Some((ls, le)) => {
                &&& is_line_start(data@, ls as int)
                &&& next_unhandled(data@, last) <= ls <= data@.len()
                &&& le == line_end_at(data@, ls as int)
                &&& ls != last
                &&& hit_by_scan(data@, finder@)(ls as int, le as int)
                &&& forall|k: int| 0 <= k < scan_hits(data@, finder@).len()
                    ==> !(next_unhandled(data@, last) <= #[trigger] scan_hits(data@, finder@)[k] < ls)
                &&& hit_scan_state(data@, finder@, ls, r.1 as int, r.2@)
            },
        },
{
    let ghost d = data@;
    let ghost n = finder@;
    let nlen = finder.needle().len();
    let dlen = data.len();
    let mut pos = pos;
    let ghost mut handled = handled;
    loop
        invariant
            d == data@,
            n == finder@,
            nlen == n.len(),
            dlen == d.len(),
            dlen < usize::MAX,
            pos <= dlen + 1,
            hit_scan_state(d, n, last, pos as int, handled),
        decreases dlen + 1 - pos,
    {
        let hit = finder.find_from(data, pos);
        proof {
            lemma_first_occurrence_from(d, n, pos as int);
            lemma_occurrences_from(d, n, pos as int);
        }
        match hit {
            None => {
                assert(occurrences_from(d, n, pos as int) == Seq::<int>::empty());
                assert(handled + Seq::<int>::empty() == handled);
                return (None, pos, Ghost(handled));
            },
            Some(p) => {
                proof {
                    match first_occurrence_from(d, n, pos as int) {
                        Some(k0) => { assert(k0 == p); },
                        None => {},
                    }
                }
                let ghost rest = occurrences_from(d, n, p + step(n));
                assert(occurrences_from(d, n, pos as int) == seq![p as int].add(rest));
                let ls = line_start_of(data, p);
                let np = if nlen == 0 { p + 1 } else { p + nlen };
                assert(np == p + step(n));
                let ghost new_handled = handled.push(p as int);
                assert(scan_hits(d, n) == new_handled + rest) by {
                    assert(handled + seq![p as int].add(rest) == handled.push(p as int) + rest);
                }
                if last != usize::MAX && ls == last {
                    proof {
                        assert forall|k: int| 0 <= k < new_handled.len() implies #[trigger] new_handled[k]
                            < next_unhandled(d, last) by {
                            if k < handled.len() {
                                assert(new_handled[k] == handled[k]);
                            }
                        }
                    }
                    pos = np;
                    proof { handled = new_handled; }
                } else {
                    let le = line_end(data, ls);
                    proof {
                        let nu = next_unhandled(d, last);
                        lemma_next_byte_bounds(d, 10u8, ls as int);
                        if last != usize::MAX {
                            let e_last = line_end_at(d, last as int);
                            lemma_next_byte_bounds(d, 10u8, last as int);
                            if p <= e_last {
                                // p lies in the last handled line, which would make ls == last
                                if last > 0 {
                                    assert(d[last - 1] == 10u8);
                                }
                                assert(forall|j: int| last <= j < p ==> d[j] != 10u8);
                                if ls < last {
                                    assert(d[last - 1] == 10u8);
                                    assert(false);
                                }
                                if ls > last {
                                    assert(d[ls - 1] == 10u8);
                                    assert(false);
                                }
                            }
                            assert(p > e_last);
                            assert(e_last < d.len());
                            assert(d[e_last] == 10u8);
                            if ls < nu {
                                assert(false);
                            }
                        }
                        assert(nu <= ls);
                        let hits = scan_hits(d, n);
                        assert(hits[handled.len() as int] == p);
                        assert(hit_by_scan(d, n)(ls as int, le as int));
                        assert forall|k: int| 0 <= k < hits.len() implies !(nu <= #[trigger] hits[k] < ls) by {
                            if k < handled.len() {
                                assert(hits[k] == handled[k]);
                            } else if k > handled.len() {
                                assert(hits[k] == rest[k - handled.len() - 1]);
                                lemma_occurrences_from(d, n, p + step(n));
                            }
                        }
                        assert forall|k: int| 0 <= k < new_handled.len() implies #[trigger] new_handled[k]
                            < next_unhandled(d, ls) by {
                            if k < handled.len() {
                                assert(new_handled[k] == handled[k]);
                            }
                        }
                    }
                    return (Some((ls, le)), np, Ghost(new_handled));
                }
            },
        }
    }
}

/// Lines whose span fails `keep` contribute nothing: a scan can start at
/// the next line that may be kept.
pub proof fn lemma_scan_skip(
    d: Seq<u8>,
    a: int,
    b: int,
    keep: spec_fn(int, int) -> bool,
    ranges: spec_fn(int, int) -> Seq<(int, int)>,
)
    requires
        0 <= a <= b <= d.len() + 1,
        a <= d.len(),
        is_line_start(d, a),
        b <= d.len() ==> is_line_start(d, b),
        forall|x: int| a <= x < b && #[trigger] is_line_start(d, x) ==> !keep(x, line_end_at(d, x)),
    ensures
        scan_lines(d, a, keep, ranges) == scan_lines(d, b, keep, ranges),
    decreases b - a,
{
    if a < b {
        let e = line_end_at(d, a);
        lemma_next_byte_bounds(d, 10u8, a);
        lemma_scan_unfold(d, a, keep, ranges);
        assert(is_line_start(d, a));
        if b <= d.len() {
            assert(d[b - 1] == 10u8);
            assert(e <= b - 1);
        }
        if e < d.len() {
            assert(Seq::<LineMatchView>::empty() + scan_lines(d, e + 1, keep, ranges)
                == scan_lines(d, e + 1, keep, ranges));
            lemma_scan_skip(d, e + 1, b, keep, ranges);
        }
    }
}

/// Highlight ranges of the literal path: the needle's occurrences in the
/// line, when asked for.
pub open spec fn literal_ranges(d: Seq<u8>, n: Seq<u8>, need_ranges: bool) -> spec_fn(int, int) -> Seq<(int, int)> {
    |s: int, e: int| if need_ranges { occurrence_ranges(d.subrange(s, e), n) } else { Seq::empty() }
}

/// Whole-buffer literal search: scans the entire buffer for the needle and
/// resolves line boundaries only for hits, reporting each hit line once.
fn search_literal_whole_buffer(
    data: &[u8],
    finder: &LiteralFinder,
    need_ranges: bool,
) -> (r: Vec<LineMatch>)
    requires
        data@.len() < usize::MAX,
        line_numbers_fit(data@),
    ensures
        matches_view(r@) == scan_lines(
            data@,
            0,
            hit_by_scan(data@, finder@),
            literal_ranges(data@, finder@, need_ranges),
        ),
        all_writable(matches_view(r@)),
{
    let ghost d = data@;
    let ghost n = finder@;
    let ghost keep = hit_by_scan(d, n);
    let ghost rng = literal_ranges(d, n, need_ranges);
    let ghost total = scan_lines(d, 0, keep, rng);
    let mut matches: Vec<LineMatch> = Vec::new();
    let mut last_line_start: usize = usize::MAX;
    let mut counted_up_to: usize = 0;
    let mut current_line_no: u32 = 1;
    let mut pos: usize = 0;
    let ghost mut handled: Seq<int> = Seq::empty();
    assert(d.take(0) == Seq::<u8>::empty());
    assert(Seq::<int>::empty() + occurrences_from(d, n, 0) == scan_hits(d, n));
    loop
        invariant
            d == data@,
            n == finder@,
            d.len() < usize::MAX,
            line_numbers_fit(d),
            keep == hit_by_scan(d, n),
            rng == literal_ranges(d, n, need_ranges),
            total == scan_lines(d, 0, keep, rng),
            pos <= d.len() + 1,
            hit_scan_state(d, n, last_line_start, pos as int, handled),
            counted_up_to == if last_line_start == usize::MAX { 0 } else { last_line_start },
            counted_up_to <= d.len(),
            current_line_no == line_number_at(d, counted_up_to as int),
            next_unhandled(d, last_line_start) <= d.len() ==> is_line_start(d, next_unhandled(d, last_line_start)),
            next_unhandled(d, last_line_start) <= d.len() + 1,
            matches_view(matches@) + scan_lines(d, next_unhandled(d, last_line_start), keep, rng) == total,
            all_writable(matches_view(matches@)),
        decreases d.len() + 1 - next_unhandled(d, last_line_start),
    {
        proof {
            if last_line_start != usize::MAX {
                lemma_next_byte_bounds(d, 10u8, last_line_start as int);
            }
        }
        let ghost nu = next_unhandled(d, last_line_start);
        let (next, np, Ghost(h2)) = next_hit_line(data, finder, pos, last_line_start, Ghost(handled));
        match next {
            None => {
                proof {
                    if nu <= d.len() {
                        assert forall|x: int| nu <= x < d.len() + 1 && #[trigger] is_line_start(d, x)
                            implies !keep(x, line_end_at(d, x)) by {
                            if keep(x, line_end_at(d, x)) {
                                let k = choose|k: int| 0 <= k < scan_hits(d, n).len()
                                    && x <= #[trigger] scan_hits(d, n)[k] <= line_end_at(d, x);
                                assert(scan_hits(d, n)[k] == h2[k]);
                            }
                        }
                        lemma_scan_skip(d, nu, d.len() + 1int, keep, rng);
                    }
                    assert(matches_view(matches@) + Seq::<LineMatchView>::empty() == matches_view(matches@));
                }
                return matches;
            },
            Some((line_start, line_end)) => {
                proof {
                    lemma_next_byte_bounds(d, 10u8, line_start as int);
                    assert forall|x: int| nu <= x < line_start && #[trigger] is_line_start(d, x)
                        implies !keep(x, line_end_at(d, x)) by {
                        lemma_next_byte_bounds(d, 10u8, x);
                        assert(d[line_start - 1] == 10u8);
                        if keep(x, line_end_at(d, x)) {
                            let k = choose|k: int| 0 <= k < scan_hits(d, n).len()
                                && x <= #[trigger] scan_hits(d, n)[k] <= line_end_at(d, x);
                            assert(line_end_at(d, x) < line_start);
                        }
                    }
                    lemma_scan_skip(d, nu, line_start as int, keep, rng);
                    lemma_scan_unfold(d, line_start as int, keep, rng);
                    lemma_count_subrange(d, counted_up_to as int, line_start as int, 10u8);
                    lemma_line_number_bound(d, line_start as int);
                }
                if line_start > counted_up_to {
                    let cnt = count_occurrences(10u8, &data[counted_up_to..line_start]);
                    current_line_no = current_line_no + cnt as u32;
                }
                counted_up_to = line_start;
                let line_bytes = &data[line_start..line_end];
                let match_ranges = if need_ranges {
                    finder.occurrence_ranges(line_bytes)
                } else {
                    Vec::new()
                };
                let m = LineMatch {
                    line_no: current_line_no,
                    line: vstd::slice::slice_to_vec(line_bytes),
                    match_ranges,
                    byte_offset: line_start as u64,
                    line_len: #[verifier::truncate] (line_bytes.len() as u32),
                };
                let ghost before = matches_view(matches@);
                assert(ranges_view(m.match_ranges@) == rng(line_start as int, line_end as int));
                assert(m@ == line_record(d, line_start as int, rng(line_start as int, line_end as int)));
                matches.push(m);
                assert(matches_view(matches@) == before.push(m@));
                last_line_start = line_start;
                pos = np;
                proof { handled = h2; }
                proof {
                    if line_end < d.len() {
                        assert(d[line_end as int] == 10u8);
                    }
                }
            },
        }
    }
}

/// Lines of the prefix path: hit by the scan for the prefix, then accepted
/// by the regex.
pub open spec fn prefix_keep(d: Seq<u8>, p: CompiledPattern, pf: Seq<u8>) -> spec_fn(int, int) -> bool {
    |s: int, e: int| hit_by_scan(d, pf)(s, e) && p.regex_accepts(d.subrange(s, e))
}

/// Highlight ranges of the prefix path: the regex's matches, when asked for.
pub open spec fn prefix_ranges(d: Seq<u8>, p: CompiledPattern, need_ranges: bool) -> spec_fn(int, int) -> Seq<(int, int)> {
    |s: int, e: int| if need_ranges { regex_ranges(p, d.subrange(s, e)) } else { Seq::empty() }
}

/// A scan yields at most one record per line.
pub proof fn lemma_scan_len(
    d: Seq<u8>,
    s: int,
    keep: spec_fn(int, int) -> bool,
    ranges: spec_fn(int, int) -> Seq<(int, int)>,
)
    requires
        0 <= s,
    ensures
        scan_lines(d, s, keep, ranges).len() <= d.len() + 1 - s || scan_lines(d, s, keep, ranges).len() == 0,
    decreases d.len() + 1 - s,
{
    if s <= d.len() {
        lemma_next_byte_bounds(d, 10u8, s);
        let e = line_end_at(d, s);
        if e < d.len() {
            lemma_scan_len(d, e + 1, keep, ranges);
        }
    }
}

/// Prefix-accelerated regex search: finds candidate lines through the
/// literal prefix, then keeps those the full regex accepts. Lines without
/// the prefix are never looked at.
fn search_prefix_accelerated(
    data: &[u8],
    pfx: &LiteralFinder,
    pattern: &CompiledPattern,
    need_ranges: bool,
) -> (r: Vec<LineMatch>)
    requires
        data@.len() < usize::MAX,
        line_numbers_fit(data@),
    ensures
        matches_view(r@) == scan_lines(
            data@,
            0,
            prefix_keep(data@, *pattern, pfx@),
            prefix_ranges(data@, *pattern, need_ranges),
        ),
        all_writable(matches_view(r@)),
{
    let ghost d = data@;
    let ghost n = pfx@;
    let ghost keep = prefix_keep(d, *pattern, n);
    let ghost rng = prefix_ranges(d, *pattern, need_ranges);
    let ghost total = scan_lines(d, 0, keep, rng);
    let mut matches: Vec<LineMatch> = Vec::new();
    let mut last_line_start: usize = usize::MAX;
    let mut counted_up_to: usize = 0;
    let mut current_line_no: u32 = 1;
    let mut pos: usize = 0;
    let ghost mut handled: Seq<int> = Seq::empty();
    assert(d.take(0) == Seq::<u8>::empty());
    assert(Seq::<int>::empty() + occurrences_from(d, n, 0) == scan_hits(d, n));
    loop
        invariant
            d == data@,
            n == pfx@,
            d.len() < usize::MAX,
            line_numbers_fit(d),
            keep == prefix_keep(d, *pattern, n),
            rng == prefix_ranges(d, *pattern, need_ranges),
            total == scan_lines(d, 0, keep, rng),
            pos <= d.len() + 1,
            hit_scan_state(d, n, last_line_start, pos as int, handled),
            last_line_start == usize::MAX ==> counted_up_to == 0,
            last_line_start != usize::MAX ==> counted_up_to <= last_line_start,
            counted_up_to <= d.len(),
            current_line_no == line_number_at(d, counted_up_to as int),
            next_unhandled(d, last_line_start) <= d.len() ==> is_line_start(d, next_unhandled(d, last_line_start)),
            next_unhandled(d, last_line_start) <= d.len() + 1,
            matches_view(matches@) + scan_lines(d, next_unhandled(d, last_line_start), keep, rng) == total,
            all_writable(matches_view(matches@)),
        decreases d.len() + 1 - next_unhandled(d, last_line_start),
    {
        proof {
            if last_line_start != usize::MAX {
                lemma_next_byte_bounds(d, 10u8, last_line_start as int);
            }
        }
        let ghost nu = next_unhandled(d, last_line_start);
        let (next, np, Ghost(h2)) = next_hit_line(data, pfx, pos, last_line_start, Ghost(handled));
        match next {
            None => {
                proof {
                    if nu <= d.len() {
                        assert forall|x: int| nu <= x < d.len() + 1 && #[trigger] is_line_start(d, x)
                            implies !keep(x, line_end_at(d, x)) by {
                            if keep(x, line_end_at(d, x)) {
                                let k = choose|k: int| 0 <= k < scan_hits(d, n).len()
                                    && x <= #[trigger] scan_hits(d, n)[k] <= line_end_at(d, x);
                                assert(scan_hits(d, n)[k] == h2[k]);
                            }
                        }
                        lemma_scan_skip(d, nu, d.len() + 1int, keep, rng);
                    }
                    assert(matches_view(matches@) + Seq::<LineMatchView>::empty() == matches_view(matches@));
                }
                return matches;
            },
            Some((line_start, line_end)) => {
                proof {
                    lemma_next_byte_bounds(d, 10u8, line_start as int);
                    assert forall|x: int| nu <= x < line_start && #[trigger] is_line_start(d, x)
                        implies !keep(x, line_end_at(d, x)) by {
                        lemma_next_byte_bounds(d, 10u8, x);
                        assert(d[line_start - 1] == 10u8);
                        if keep(x, line_end_at(d, x)) {
                            let k = choose|k: int| 0 <= k < scan_hits(d, n).len()
                                && x <= #[trigger] scan_hits(d, n)[k] <= line_end_at(d, x);
                            assert(line_end_at(d, x) < line_start);
                        }
                    }
                    lemma_scan_skip(d, nu, line_start as int, keep, rng);
                    lemma_scan_unfold(d, line_start as int, keep, rng);
                    lemma_count_subrange(d, counted_up_to as int, line_start as int, 10u8);
                    lemma_line_number_bound(d, line_start as int);
                    if line_end < d.len() {
                        assert(d[line_end as int] == 10u8);
                    }
                }
                last_line_start = line_start;
                let line_bytes = &data[line_start..line_end];
                if !pattern.regex_is_match(line_bytes) {
                    assert(matches_view(matches@) + scan_lines(d, next_unhandled(d, last_line_start), keep, rng)
                        == total);
                    pos = np;
                    proof { handled = h2; }
                } else {
                    if line_start > counted_up_to {
                        let cnt = count_occurrences(10u8, &data[counted_up_to..line_start]);
                        current_line_no = current_line_no + cnt as u32;
                    }
                    counted_up_to = line_start;
                    let match_ranges = if need_ranges {
                        pattern.regex_find_all(line_bytes)
                    } else {
                        Vec::new()
                    };
                    let m = LineMatch {
                        line_no: current_line_no,
                        line: vstd::slice::slice_to_vec(line_bytes),
                        match_ranges,
                        byte_offset: line_start as u64,
                        line_len: #[verifier::truncate] (line_bytes.len() as u32),
                    };
                    let ghost before = matches_view(matches@);
                    assert(ranges_view(m.match_ranges@) == rng(line_start as int, line_end as int)) by {
                        if need_ranges {
                            assert(ranges_view(m.match_ranges@) =~= regex_ranges(*pattern, line_bytes@));
                        }
                    }
                    assert(m@ == line_record(d, line_start as int, rng(line_start as int, line_end as int)));
                    matches.push(m);
                    assert(matches_view(matches@) == before.push(m@));
                    pos = np;
                    proof { handled = h2; }
                }
            },
        }
    }
}

/// Which lines a search keeps: the literal path (no `-v`, literal needle),
/// the prefix path (no `-v`, literal prefix), or the line-by-line test.
pub open spec fn mode_keep(d: Seq<u8>, p: CompiledPattern, invert: bool) -> spec_fn(int, int) -> bool {
    if !invert && p.literal_needle() is Some {
        hit_by_scan(d, p.literal_needle().unwrap())
    } else if !invert && p.prefix_needle() is Some {
        prefix_keep(d, p, p.prefix_needle().unwrap())
    } else {
        selects(d, p, invert)
    }
}

/// The highlight ranges a search attaches to the lines it keeps.
pub open spec fn mode_ranges(d: Seq<u8>, p: CompiledPattern, invert: bool, need_ranges: bool) -> spec_fn(int, int) -> Seq<(int, int)> {
    if !invert && p.literal_needle() is Some {
        literal_ranges(d, p.literal_needle().unwrap(), need_ranges)
    } else if !invert && p.prefix_needle() is Some {
        prefix_ranges(d, p, need_ranges)
    } else {
        line_ranges(d, p, invert, need_ranges)
    }
}

/// The lines that a search of `data` reports. An empty buffer has no lines;
/// otherwise the lines are those of the buffer without its final `\n`.
pub open spec fn spec_search(data: Seq<u8>, p: CompiledPattern, invert: bool, need_ranges: bool) -> Seq<LineMatchView> {
    let d = strip_terminator(data);
    if data.len() == 0 {
        Seq::empty()
    } else {
        scan_lines(d, 0, mode_keep(d, p, invert), mode_ranges(d, p, invert, need_ranges))
    }
}

/// The number of lines that a search of `data` reports.
pub open spec fn spec_count(data: Seq<u8>, p: CompiledPattern, invert: bool) -> int {
    spec_search(data, p, invert, false).len() as int
}

/// The buffer can be searched: its length and its line numbers fit.
pub open spec fn searchable(data: Seq<u8>) -> bool {
    data.len() < usize::MAX && line_numbers_fit(data)
}

pub proof fn lemma_strip_searchable(data: Seq<u8>)
    requires
        searchable(data),
    ensures
        searchable(strip_terminator(data)),
{
    if data.len() > 0 && data.last() == 10u8 {
        assert(data == data.drop_last() + seq![data.last()]);
        lemma_count_byte_append(data.drop_last(), seq![data.last()], 10u8);
    }
}

/// The number of records a scan yields from `s`, counted one line at a time.
fn count_line_by_line(data: &[u8], pattern: &CompiledPattern, invert_match: bool) -> (r: usize)
    requires
        data@.len() < usize::MAX,
    ensures
        r == scan_lines(data@, 0, selects(data@, *pattern, invert_match), no_ranges()).len(),
{
    let ghost d = data@;
    let ghost keep = selects(d, *pattern, invert_match);
    let ghost total = scan_lines(d, 0, keep, no_ranges());
    let mut count: usize = 0;
    let mut start: usize = 0;
    let n = data.len();
    proof { lemma_scan_len(d, 0, keep, no_ranges()); }
    loop
        invariant
            d == data@,
            n == d.len(),
            n < usize::MAX,
            keep == selects(d, *pattern, invert_match),
            total == scan_lines(d, 0, keep, no_ranges()),
            total.len() <= n + 1,
            start <= n,
            is_line_start(d, start as int),
            count + scan_lines(d, start as int, keep, no_ranges()).len() == total.len(),
        decreases n - start,
    {
        let end = line_end(data, start);
        proof {
            lemma_next_byte_bounds(d, 10u8, start as int);
            lemma_scan_unfold(d, start as int, keep, no_ranges());
        }
        let line_bytes = &data[start..end];
        let is_match = pattern.is_match(line_bytes);
        if (if invert_match { !is_match } else { is_match }) {
            count = count + 1;
        }
        if end == n {
            return count;
        }
        proof { lemma_line_step(d, start as int); }
        start = end + 1;
    }
}

/// The number of lines of a whole-buffer scan for `finder`'s needle; with
/// `verify`, only the lines the regex also accepts.
fn count_hit_lines(data: &[u8], finder: &LiteralFinder, pattern: &CompiledPattern, verify: bool) -> (r: usize)
    requires
        data@.len() < usize::MAX,
    ensures
        r == scan_lines(
            data@,
            0,
            if verify { prefix_keep(data@, *pattern, finder@) } else { hit_by_scan(data@, finder@) },
            no_ranges(),
        ).len(),
{
    let ghost d = data@;
    let ghost n = finder@;
    let ghost keep = if verify { prefix_keep(d, *pattern, n) } else { hit_by_scan(d, n) };
    let ghost total = scan_lines(d, 0, keep, no_ranges());
    let mut count: usize = 0;
    let mut last_line_start: usize = usize::MAX;
    let mut pos: usize = 0;
    let ghost mut handled: Seq<int> = Seq::empty();
    assert(Seq::<int>::empty() + occurrences_from(d, n, 0) == scan_hits(d, n));
    proof { lemma_scan_len(d, 0, keep, no_ranges()); }
    loop
        invariant
            d == data@,
            n == finder@,
            d.len() < usize::MAX,
            keep == if verify { prefix_keep(d, *pattern, n) } else { hit_by_scan(d, n) },
            total == scan_lines(d, 0, keep, no_ranges()),
            total.len() <= d.len() + 1,
            pos <= d.len() + 1,
            hit_scan_state(d, n, last_line_start, pos as int, handled),
            next_unhandled(d, last_line_start) <= d.len() ==> is_line_start(d, next_unhandled(d, last_line_start)),
            next_unhandled(d, last_line_start) <= d.len() + 1,
            count + scan_lines(d, next_unhandled(d, last_line_start), keep, no_ranges()).len() == total.len(),
        decreases d.len() + 1 - next_unhandled(d, last_line_start),
    {
        proof {
            if last_line_start != usize::MAX {
                lemma_next_byte_bounds(d, 10u8, last_line_start as int);
            }
        }
        let ghost nu = next_unhandled(d, last_line_start);
        let (next, np, Ghost(h2)) = next_hit_line(data, finder, pos, last_line_start, Ghost(handled));
        match next {
            None => {
                proof {
                    if nu <= d.len() {
                        assert forall|x: int| nu <= x < d.len() + 1 && #[trigger] is_line_start(d, x)
                            implies !keep(x, line_end_at(d, x)) by {
                            if hit_by_scan(d, n)(x, line_end_at(d, x)) {
                                let k = choose|k: int| 0 <= k < scan_hits(d, n).len()
                                    && x <= #[trigger] scan_hits(d, n)[k] <= line_end_at(d, x);
                                assert(scan_hits(d, n)[k] == h2[k]);
                            }
                        }
                        lemma_scan_skip(d, nu, d.len() + 1int, keep, no_ranges());
                    }
                }
                return count;
            },
            Some((line_start, line_end)) => {
                proof {
                    lemma_next_byte_bounds(d, 10u8, line_start as int);
                    assert forall|x: int| nu <= x < line_start && #[trigger] is_line_start(d, x)
                        implies !keep(x, line_end_at(d, x)) by {
                        lemma_next_byte_bounds(d, 10u8, x);
                        assert(d[line_start - 1] == 10u8);
                        if hit_by_scan(d, n)(x, line_end_at(d, x)) {
                            let k = choose|k: int| 0 <= k < scan_hits(d, n).len()
                                && x <= #[trigger] scan_hits(d, n)[k] <= line_end_at(d, x);
                            assert(line_end_at(d, x) < line_start);
                        }
                    }
                    lemma_scan_skip(d, nu, line_start as int, keep, no_ranges());
                    lemma_scan_unfold(d, line_start as int, keep, no_ranges());
                    if line_end < d.len() {
                        assert(d[line_end as int] == 10u8);
                    }
                }
                last_line_start = line_start;
                if !verify {
                    count = count + 1;
                } else {
                    if pattern.regex_is_match(&data[line_start..line_end]) {
                        count = count + 1;
                    }
                }
                pos = np;
                proof { handled = h2; }
            },
        }
    }
}

/// Counts the lines a search reports, without building them: a
/// whole-buffer scan on the literal and prefix paths, line by line
/// otherwise.
fn count_matches(data: &[u8], pattern: &CompiledPattern, invert_match: bool) -> (r: usize)
    requires
        data@.len() < usize::MAX,
    ensures
        r == spec_count(data@, *pattern, invert_match),
{
    if data.len() == 0 {
        return 0;
    }
    let data = strip_line_terminator(data);
    let ghost d = data@;
    if !invert_match {
        if let Some(finder) = pattern.literal_finder() {
            assert(literal_ranges(d, finder@, false) == no_ranges());
            return count_hit_lines(data, finder, pattern, false);
        }
    }
    if !invert_match {
        if let Some(pfx) = pattern.prefix_finder() {
            assert(prefix_ranges(d, *pattern, false) == no_ranges());
            return count_hit_lines(data, pfx, pattern, true);
        }
    }
    assert(no_ranges() == line_ranges(d, *pattern, invert_match, false));
    count_line_by_line(data, pattern, invert_match)
}

/// Core search on a buffer: the whole-buffer literal scan when the pattern
/// is a plain string, prefix-accelerated regex search when it has a literal
/// prefix, line by line otherwise (and always with `-v`).
fn search_bytes(
    data: &[u8],
    pattern: &CompiledPattern,
    invert_match: bool,
    need_ranges: bool,
) -> (r: Vec<LineMatch>)
    requires
        searchable(data@),
    ensures
        matches_view(r@) == spec_search(data@, *pattern, invert_match, need_ranges),
        all_writable(matches_view(r@)),
{
    proof { lemma_strip_searchable(data@); }
    if data.len() == 0 {
        return Vec::new();
    }
    let data = strip_line_terminator(data);
    if !invert_match {
        if let Some(finder) = pattern.literal_finder() {
            return search_literal_whole_buffer(data, finder, need_ranges);
        }
    }
    if !invert_match {
        if let Some(pfx) = pattern.prefix_finder() {
            return search_prefix_accelerated(data, pfx, pattern, need_ranges);
        }
    }
    search_bytes_line_by_line(data, pattern, invert_match, need_ranges)
}

/// Returns `true` if at least one line of `data` does not match `pattern`
/// (an empty buffer has no line).
fn has_non_matching_line(data: &[u8], pattern: &CompiledPattern) -> (r: bool)
    ensures
        r == (data@.len() > 0 && scan_lines(strip_terminator(data@), 0, selects(strip_terminator(data@), *pattern, true), no_ranges()).len() > 0),
{
    if data.len() == 0 {
        return false;
    }
    let lines = strip_line_terminator(data);
    let ghost d = lines@;
    let ghost keep = selects(d, *pattern, true);
    let n = lines.len();
    let mut start: usize = 0;
    loop
        invariant
            d == lines@,
            n == d.len(),
            keep == selects(d, *pattern, true),
            d == strip_terminator(data@),
            data@.len() > 0,
            start <= n,
            is_line_start(d, start as int),
            scan_lines(d, 0, keep, no_ranges()).len() > 0 <==> scan_lines(d, start as int, keep, no_ranges()).len() > 0,
        decreases n - start,
    {
        let end = line_end(lines, start);
        proof {
            lemma_next_byte_bounds(d, 10u8, start as int);
            lemma_scan_unfold(d, start as int, keep, no_ranges());
        }
        if !pattern.is_match(&lines[start..end]) {
            return true;
        }
        if end == n {
            return false;
        }
        proof { lemma_line_step(d, start as int); }
        start = end + 1;
    }
}

/// The match recorded for a line whose content is not kept: a line of a
/// binary file, or a line counted with `-c` or `-l`.
pub open spec fn placeholder_view() -> LineMatchView {
    LineMatchView { line_no: 0, line: Seq::empty(), match_ranges: Seq::empty(), byte_offset: 0, line_len: 0 }
}

fn placeholder() -> (r: LineMatch)
    ensures
        r@ == placeholder_view(),
{
    let m = LineMatch { line_no: 0, line: Vec::new(), match_ranges: Vec::new(), byte_offset: 0, line_len: 0 };
    assert(ranges_view(m.match_ranges@) =~= Seq::<(int, int)>::empty());
    m
}

/// `n` placeholder matches.
pub open spec fn placeholders(n: nat) -> Seq<LineMatchView> {
    Seq::new(n, |i: int| placeholder_view())
}

fn placeholder_matches(n: usize) -> (r: Vec<LineMatch>)
    ensures
        matches_view(r@) == placeholders(n as nat),
        all_writable(matches_view(r@)),
{
    let mut v: Vec<LineMatch> = Vec::new();
    for i in 0..n
        invariant
            matches_view(v@) == placeholders(i as nat),
    {
        let ghost before = matches_view(v@);
        v.push(placeholder());
        assert(matches_view(v@) == before.push(placeholder_view()));
        assert(placeholders((i + 1) as nat) == placeholders(i as nat).push(placeholder_view()));
    }
    assert(all_writable(matches_view(v@))) by {
        assert forall|i: int| 0 <= i < matches_view(v@).len() implies writable(#[trigger] matches_view(v@)[i]) by {
            assert(matches_view(v@)[i] == placeholder_view());
            assert(ordered_ranges(Seq::<(int, int)>::empty(), 0));
        }
    }
    v
}

/// `d` holds a NUL byte: GNU grep's test for a binary file.
pub open spec fn has_nul(d: Seq<u8>) -> bool {
    exists|i: int| 0 <= i < d.len() && d[i] == 0u8
}

/// The matches that searching a file's contents reports. A binary file
/// yields placeholders: as many as matching lines with `-c`, otherwise one
/// when it matches (always with `-v`). Count-only searches yield one
/// placeholder per matching line.
pub open spec fn file_matches(data: Seq<u8>, p: CompiledPattern, invert: bool, need_ranges: bool, count_only: bool) -> Seq<LineMatchView> {
    if has_nul(data) {
        if count_only {
            placeholders(spec_count(data, p, invert) as nat)
        } else if invert || p.spec_is_match(data) {
            seq![placeholder_view()]
        } else {
            Seq::empty()
        }
    } else if count_only {
        placeholders(spec_count(data, p, invert) as nat)
    } else {
        spec_search(data, p, invert, need_ranges)
    }
}

/// Searches the contents of the file at `path` for lines matching
/// `pattern`. A file with a NUL byte is binary and yields placeholder
/// matches without content. With `invert_match` the non-matching lines are
/// returned; without `need_ranges` no highlight ranges are computed.
pub fn search_file_contents(
    path: &[u8],
    data: &[u8],
    pattern: &CompiledPattern,
    invert_match: bool,
    need_ranges: bool,
    count_only: bool,
) -> (r: FileResult)
    requires
        searchable(data@),
    ensures
        r.path@ == path@,
        r.is_binary == has_nul(data@),
        matches_view(r.matches@) == file_matches(data@, *pattern, invert_match, need_ranges, count_only),
        all_writable(matches_view(r.matches@)),
{
    let path = vstd::slice::slice_to_vec(path);
    if is_binary(data) {
        if count_only {
            let count = count_matches(data, pattern, invert_match);
            return FileResult { path, matches: placeholder_matches(count), is_binary: true };
        }
        let has_match = if invert_match { true } else { pattern.is_match(data) };
        let matches = if has_match { placeholder_matches(1) } else { placeholder_matches(0) };
        assert(placeholders(1) =~= seq![placeholder_view()]);
        assert(placeholders(0) =~= Seq::<LineMatchView>::empty());
        return FileResult { path, matches, is_binary: true };
    }
    if count_only {
        let count = count_matches(data, pattern, invert_match);
        return FileResult { path, matches: placeholder_matches(count), is_binary: false };
    }
    let matches = search_bytes(data, pattern, invert_match, need_ranges);
    FileResult { path, matches, is_binary: false }
}

/// Searches input that comes without a file, such as standard input: the
/// result has an empty path, and binary detection is skipped.
pub fn search_input(
    data: &[u8],
    pattern: &CompiledPattern,
    invert_match: bool,
    need_ranges: bool,
    count_only: bool,
) -> (r: FileResult)
    requires
        searchable(data@),
    ensures
        r.path@ == Seq::<u8>::empty(),
        !r.is_binary,
        matches_view(r.matches@) == if count_only {
            placeholders(spec_count(data@, *pattern, invert_match) as nat)
        } else {
            spec_search(data@, *pattern, invert_match, need_ranges)
        },
        all_writable(matches_view(r.matches@)),
{
    if count_only {
        let count = count_matches(data, pattern, invert_match);
        return FileResult { path: Vec::new(), matches: placeholder_matches(count), is_binary: false };
    }
    let matches = search_bytes(data, pattern, invert_match, need_ranges);
    FileResult { path: Vec::new(), matches, is_binary: false }
}

/// Whether `data` can be searched: its length and its line count fit the
/// machine types the search uses.
pub fn fits_search(data: &[u8]) -> (r: bool)
    ensures
        r == searchable(data@),
{
    if data.len() == usize::MAX {
        return false;
    }
    count_occurrences(10u8, data) < 0xffff_ffff
}

/// The matches that searching input without a file reports: one
/// placeholder per selected line for `-c` and `-l`, else the selected lines,
/// with highlight ranges when the output needs them.
pub open spec fn input_matches(data: Seq<u8>, p: CompiledPattern, invert: bool, c: OutputConfig) -> Seq<LineMatchView> {
    if c.count || c.files_with_matches {
        placeholders(spec_count(data, p, invert) as nat)
    } else {
        spec_search(data, p, invert, c.color || c.only_matching || c.spec_is_json())
    }
}

/// Searches input that comes without a file, such as standard input, and
/// writes the result as `config` asks. Returns whether any line was
/// selected (the exit status) and whether a binary match must be reported.
pub fn grep_input(
    data: &[u8],
    pattern: &CompiledPattern,
    invert_match: bool,
    config: &OutputConfig,
    out: &mut Vec<u8>,
    number_width: usize,
) -> (r: Result<(bool, FormatOutcome), serde_json::Error>)
    requires
        searchable(data@),
    ensures
        format_output(*config, Seq::empty(), input_matches(data@, *pattern, invert_match, *config), false,
            number_width as nat) is Some,
        r matches Ok((found, o)) ==> {
            let ms = input_matches(data@, *pattern, invert_match, *config);
            let (bytes, outcome) = format_output(*config, Seq::empty(), ms, false, number_width as nat).unwrap();
            &&& found == (ms.len() > 0)
            &&& final(out)@ == old(out)@ + bytes
            &&& o == outcome
        },
        r is Ok,
{
    let count_only = config.count || config.files_with_matches;
    let need_ranges = config.requires_match_ranges() && !count_only;
    let result = search_input(data, pattern, invert_match, need_ranges, count_only);
    let found = result.matches.len() != 0;
    proof {
        lemma_format_some(*config, result.path@, matches_view(result.matches@), false, number_width as nat);
        assert(result.path@ == Seq::<u8>::empty());
    }
    let o = format_result(&result, config, out, number_width)?;
    Ok((found, o))
}

/// The lines a streaming search reports: none for an empty buffer, else the
/// whole-buffer literal scan when the pattern is literal and not inverted,
/// line by line otherwise.
pub open spec fn stream_matches(data: Seq<u8>, p: CompiledPattern, invert: bool, need_ranges: bool) -> Seq<LineMatchView> {
    let d = strip_terminator(data);
    if data.len() == 0 {
        Seq::empty()
    } else if !invert && p.literal_needle() is Some {
        scan_lines(d, 0, hit_by_scan(d, p.literal_needle().unwrap()),
            literal_ranges(d, p.literal_needle().unwrap(), need_ranges))
    } else {
        scan_lines(d, 0, selects(d, p, invert), line_ranges(d, p, invert, need_ranges))
    }
}

/// Streaming whole-buffer literal search: writes each hit line as it is
/// found. Returns the number of lines written.
fn stream_literal_whole_buffer(
    data: &[u8],
    finder: &LiteralFinder,
    need_ranges: bool,
    config: &OutputConfig,
    path_bytes: Option<&[u8]>,
    out: &mut Vec<u8>,
    number_width: usize,
) -> (r: Result<usize, serde_json::Error>)
    requires
        searchable(data@),
    ensures
        ({
            let d = strip_terminator(data@);
            let ms = scan_lines(d, 0, hit_by_scan(d, finder@), literal_ranges(d, finder@, need_ranges));
            &&& all_writable(ms)
            &&& r matches Ok(k) ==> k == ms.len()
                && final(out)@ == old(out)@ + matched_lines_output(*config, opt_view(path_bytes), ms, number_width as nat).unwrap()
        }),
        r is Ok,
{
    proof { lemma_strip_searchable(data@); }
    let data = strip_line_terminator(data);
    let ms = search_literal_whole_buffer(data, finder, need_ranges);
    write_line_matches(out, config, path_bytes, ms.as_slice(), number_width)
}

/// Streaming line-by-line search: writes each selected line. Returns the
/// number of lines written.
fn stream_line_by_line(
    data: &[u8],
    pattern: &CompiledPattern,
    invert_match: bool,
    need_ranges: bool,
    config: &OutputConfig,
    path_bytes: Option<&[u8]>,
    out: &mut Vec<u8>,
    number_width: usize,
) -> (r: Result<usize, serde_json::Error>)
    requires
        searchable(data@),
    ensures
        ({
            let d = strip_terminator(data@);
            let ms = scan_lines(d, 0, selects(d, *pattern, invert_match), line_ranges(d, *pattern, invert_match, need_ranges));
            &&& all_writable(ms)
            &&& r matches Ok(k) ==> k == ms.len()
                && final(out)@ == old(out)@ + matched_lines_output(*config, opt_view(path_bytes), ms, number_width as nat).unwrap()
        }),
        r is Ok,
{
    proof { lemma_strip_searchable(data@); }
    let data = strip_line_terminator(data);
    let ms = search_bytes_line_by_line(data, pattern, invert_match, need_ranges);
    write_line_matches(out, config, path_bytes, ms.as_slice(), number_width)
}

/// The file name and `:` that precede a count in multi-file mode, coloured
/// when colour is on.
pub open spec fn stream_name_sep(c: OutputConfig, path: Seq<u8>) -> Seq<u8> {
    if c.color {
        color_filename() + path + color_reset() + color_sep() + seq![58u8] + color_reset()
    } else {
        path + seq![58u8]
    }
}

fn write_stream_name_sep(out: &mut Vec<u8>, config: &OutputConfig, path: &[u8])
    ensures
        final(out)@ == old(out)@ + stream_name_sep(*config, path@),
{
    let ghost start = out@;
    if config.color {
        out.push(27u8); out.push(91u8); out.push(51u8); out.push(53u8); out.push(109u8);
        append_bytes(out, path);
        out.push(27u8); out.push(91u8); out.push(48u8); out.push(109u8);
        out.push(27u8); out.push(91u8); out.push(51u8); out.push(54u8); out.push(109u8);
        out.push(58u8);
        out.push(27u8); out.push(91u8); out.push(48u8); out.push(109u8);
        assert(out@ =~= start + stream_name_sep(*config, path@));
    } else {
        append_bytes(out, path);
        out.push(58u8);
    }
}

fn write_name_line(out: &mut Vec<u8>, config: &OutputConfig, path: &[u8])
    ensures
        final(out)@ == old(out)@ + filename_text(*config, path@) + seq![10u8],
{
    let ghost start = out@;
    if config.color {
        out.push(27u8); out.push(91u8); out.push(51u8); out.push(53u8); out.push(109u8);
        append_bytes(out, path);
        out.push(27u8); out.push(91u8); out.push(48u8); out.push(109u8);
    } else {
        append_bytes(out, path);
    }
    out.push(10u8);
    assert(out@ =~= start + filename_text(*config, path@) + seq![10u8]);
}

/// The count line of `-c`: the name prefix in multi-file mode, the number,
/// a newline.
pub open spec fn stream_count_line(c: OutputConfig, path: Seq<u8>, count: nat) -> Seq<u8> {
    (if c.multi_file { stream_name_sep(c, path) } else { Seq::empty() }) + crate::output::decimal(count) + seq![10u8]
}

pub fn write_count_line(out: &mut Vec<u8>, config: &OutputConfig, path: &[u8], count: usize)
    ensures
        final(out)@ == old(out)@ + stream_count_line(*config, path@, count as nat),
{
    let ghost start = out@;
    if config.multi_file {
        write_stream_name_sep(out, config, path);
    }
    let d = crate::output::format_decimal(count as u64);
    append_bytes(out, d.as_slice());
    out.push(10u8);
    assert(out@ =~= start + stream_count_line(*config, path@, count as nat));
}

/// What streaming the contents of the file at `path` writes, how many
/// matches it counts, and whether it must report a binary match on stderr.
/// A binary file is decided as a whole unless `-a` asks to treat it as text.
pub open spec fn stream_output(
    path: Seq<u8>,
    data: Seq<u8>,
    p: CompiledPattern,
    invert: bool,
    c: OutputConfig,
    width: nat,
) -> Option<(Seq<u8>, nat, FormatOutcome)> {
    if has_nul(data) && !c.text {
        if c.count {
            let n = spec_count(data, p, invert) as nat;
            Some((stream_count_line(c, path, n), n, FormatOutcome::Written))
        } else if invert || p.spec_is_match(data) {
            if c.files_with_matches {
                Some((filename_text(c, path) + seq![10u8], 1nat, FormatOutcome::Written))
            } else {
                Some((Seq::empty(), 1nat, FormatOutcome::BinaryFileMatches))
            }
        } else {
            Some((Seq::empty(), 0nat, FormatOutcome::Written))
        }
    } else if c.files_with_matches {
        let has_match = data.len() > 0 && if invert {
            scan_lines(strip_terminator(data), 0, selects(strip_terminator(data), p, true), no_ranges()).len() > 0
        } else {
            p.spec_is_match(data)
        };
        if has_match {
            Some((filename_text(c, path) + seq![10u8], 1nat, FormatOutcome::Written))
        } else {
            Some((Seq::empty(), 0nat, FormatOutcome::Written))
        }
    } else if c.count {
        let n = spec_count(data, p, invert) as nat;
        Some((stream_count_line(c, path, n), n, FormatOutcome::Written))
    } else {
        let ms = stream_matches(data, p, invert, c.color);
        match matched_lines_output(c, if c.multi_file { Some(path) } else { None }, ms, width) {
            Some(b) => Some((b, ms.len(), FormatOutcome::Written)),
            None => None,
        }
    }
}

/// Searches the contents of the file at `path` and writes the output as it
/// goes, in the mode `config` asks for: `-c` writes the count, `-l` the file
/// name, otherwise each matching line. Returns the number of matches and
/// whether a binary match must be reported on stderr.
pub fn stream_file_contents(
    path: &[u8],
    data: &[u8],
    pattern: &CompiledPattern,
    invert_match: bool,
    config: &OutputConfig,
    out: &mut Vec<u8>,
    number_width: usize,
) -> (r: Result<(usize, FormatOutcome), serde_json::Error>)
    requires
        searchable(data@),
    ensures
        stream_output(path@, data@, *pattern, invert_match, *config, number_width as nat) is Some,
        r matches Ok((k, o)) ==> {
            let (bytes, n, outcome) = stream_output(path@, data@, *pattern, invert_match, *config,
                number_width as nat).unwrap();
            final(out)@ == old(out)@ + bytes && k == n && o == outcome
        },
        r is Ok,
{
    proof { lemma_strip_searchable(data@); }
    if is_binary(data) && !config.text {
        if config.count {
            let count = count_matches(data, pattern, invert_match);
            write_count_line(out, config, path, count);
            return Ok((count, FormatOutcome::Written));
        }
        let has_match = if invert_match { true } else { pattern.is_match(data) };
        if has_match {
            if config.files_with_matches {
                write_name_line(out, config, path);
                return Ok((1, FormatOutcome::Written));
            }
            assert(out@ == old(out)@ + Seq::<u8>::empty());
            return Ok((1, FormatOutcome::BinaryFileMatches));
        }
        assert(out@ == old(out)@ + Seq::<u8>::empty());
        return Ok((0, FormatOutcome::Written));
    }

    if config.files_with_matches {
        let has_match = if invert_match {
            has_non_matching_line(data, pattern)
        } else {
            data.len() > 0 && pattern.is_match(data)
        };
        if has_match {
            write_name_line(out, config, path);
            return Ok((1, FormatOutcome::Written));
        }
        assert(out@ == old(out)@ + Seq::<u8>::empty());
        return Ok((0, FormatOutcome::Written));
    }

    if config.count {
        let count = count_matches(data, pattern, invert_match);
        write_count_line(out, config, path, count);
        return Ok((count, FormatOutcome::Written));
    }

    if data.len() == 0 {
        assert(out@ == old(out)@ + Seq::<u8>::empty());
        return Ok((0, FormatOutcome::Written));
    }
    let need_ranges = config.color;
    let path_bytes = if config.multi_file { Some(path) } else { None };
    let ghost d = strip_terminator(data@);
    if !invert_match {
        if let Some(finder) = pattern.literal_finder() {
            let res = stream_literal_whole_buffer(data, finder, need_ranges, config, path_bytes, out, number_width);
            proof {
                lemma_matched_lines_some(*config, opt_view(path_bytes),
                    stream_matches(data@, *pattern, invert_match, need_ranges), number_width as nat);
            }
            let count = res?;
            return Ok((count, FormatOutcome::Written));
        }
    }
    let res = stream_line_by_line(data, pattern, invert_match, need_ranges, config, path_bytes, out, number_width);
    proof {
        lemma_matched_lines_some(*config, opt_view(path_bytes),
            stream_matches(data@, *pattern, invert_match, need_ranges), number_width as nat);
    }
    let count = res?;
    Ok((count, FormatOutcome::Written))
}



/// Whether a file's output is written from its whole result rather than
/// streamed line by line: with `-o`, with `-m`, and in JSON mode.
pub open spec fn needs_full_result(c: OutputConfig) -> bool {
    c.only_matching || c.max_count > 0 || c.spec_is_json()
}

/// The matches that searching a file reports for the output `c` asks for:
/// one placeholder per selected line for `-c` and `-l`, else the selected
/// lines, with highlight ranges when the output needs them.
pub open spec fn output_matches(data: Seq<u8>, p: CompiledPattern, invert: bool, c: OutputConfig) -> Seq<LineMatchView> {
    let count_only = c.count || c.files_with_matches;
    file_matches(data, p, invert, (c.color || c.only_matching || c.spec_is_json()) && !count_only, count_only)
}

/// What searching a file writes when its output is formatted from the whole
/// result (`-o`, `-m`, JSON), how many matches it counts, and whether a
/// binary match must be reported on stderr. A binary file, unless `-a` asks
/// to treat it as text, is decided as a whole, as the streaming search
/// decides it: `-c` writes its count, `-l` its name when it matches, and
/// anything else writes nothing and reports a match. Otherwise the file's
/// lines are searched and formatted as text.
pub open spec fn full_output(
    path: Seq<u8>,
    data: Seq<u8>,
    p: CompiledPattern,
    invert: bool,
    c: OutputConfig,
    width: nat,
) -> Option<(Seq<u8>, nat, FormatOutcome)> {
    if has_nul(data) && !c.text {
        if c.count {
            let n = spec_count(data, p, invert) as nat;
            Some((count_output(c, path, placeholders(n)), n, FormatOutcome::Written))
        } else if invert || p.spec_is_match(data) {
            if c.files_with_matches {
                Some((names_output(c, path, placeholders(1)), 1nat, FormatOutcome::Written))
            } else {
                Some((Seq::empty(), 1nat, FormatOutcome::BinaryFileMatches))
            }
        } else {
            Some((Seq::empty(), 0nat, FormatOutcome::Written))
        }
    } else {
        let ms = input_matches(data, p, invert, c);
        match format_output(c, path, ms, false, width) {
            Some((b, o)) => Some((b, ms.len(), o)),
            None => None,
        }
    }
}

/// Law: searching a file that has no match writes nothing unless `-c` asks
/// for its count, whether the output is streamed or formatted from the
/// whole result; so the output of such a file can be left out.
pub proof fn lemma_no_match_writes_nothing(
    path: Seq<u8>,
    data: Seq<u8>,
    p: CompiledPattern,
    invert: bool,
    c: OutputConfig,
    width: nat,
)
    requires
        !c.count,
    ensures
        stream_output(path, data, p, invert, c, width) matches Some((b, n, o)) ==> (n == 0 ==> b.len() == 0),
        full_output(path, data, p, invert, c, width) matches Some((b, n, o)) ==> (n == 0 ==> b.len() == 0),
{
    let ms = input_matches(data, p, invert, c);
    if ms.len() == 0 {
        assert(ms.take(capped_count(ms.len(), c.max_count as nat) as int) =~= Seq::<LineMatchView>::empty());
    }
}

/// Whether the output of a searched file is kept: when it matched, and
/// always with `-c`, which writes a count of zero too.
pub fn keeps_output(count: usize, config: &OutputConfig) -> (r: bool)
    ensures
        r == (count > 0 || config.count),
{
    count > 0 || config.count
}

/// The exit status of a search that ran without error: 0 when some line was
/// selected, 1 otherwise.
pub fn exit_status(found: bool) -> (r: u8)
    ensures
        r == if found { 0u8 } else { 1u8 },
{
    if found { 0 } else { 1 }
}

/// Searches the contents of the file at `path` and writes what `config`
/// asks for: streamed as the lines are found, or, with `-o`, `-m` or JSON
/// output, formatted from the whole result. Either way a binary file is
/// decided as a whole unless `-a` treats it as text. Returns the number of
/// matches and whether a binary match must be reported on stderr.
pub fn grep_file(
    path: &[u8],
    data: &[u8],
    pattern: &CompiledPattern,
    invert_match: bool,
    config: &OutputConfig,
    out: &mut Vec<u8>,
    number_width: usize,
) -> (r: Result<(usize, FormatOutcome), serde_json::Error>)
    requires
        searchable(data@),
    ensures
        !needs_full_result(*config) ==> stream_output(path@, data@, *pattern, invert_match, *config,
            number_width as nat) is Some,
        !needs_full_result(*config) ==> (r matches Ok((k, o)) ==> {
            let (bytes, n, outcome) = stream_output(path@, data@, *pattern, invert_match, *config,
                number_width as nat).unwrap();
            final(out)@ == old(out)@ + bytes && k == n && o == outcome
        }),
        needs_full_result(*config) ==> full_output(path@, data@, *pattern, invert_match, *config,
            number_width as nat) is Some,
        needs_full_result(*config) ==> (r matches Ok((k, o)) ==> {
            let (bytes, n, outcome) = full_output(path@, data@, *pattern, invert_match, *config,
                number_width as nat).unwrap();
            final(out)@ == old(out)@ + bytes && k == n && o == outcome
        }),
        r is Ok,
{
    if config.only_matching || config.max_count > 0 || config.is_json() {
        if is_binary(data) && !config.text {
            if config.count {
                let count = count_matches(data, pattern, invert_match);
                write_count(out, config, path, count)?;
                proof { assert(placeholders(count as nat).len() == count); }
                return Ok((count, FormatOutcome::Written));
            }
            let has_match = if invert_match { true } else { pattern.is_match(data) };
            if has_match {
                if config.files_with_matches {
                    write_names(out, config, path, 1)?;
                    proof { assert(placeholders(1).len() == 1); }
                    return Ok((1, FormatOutcome::Written));
                }
                assert(out@ == old(out)@ + Seq::<u8>::empty());
                return Ok((1, FormatOutcome::BinaryFileMatches));
            }
            assert(out@ == old(out)@ + Seq::<u8>::empty());
            return Ok((0, FormatOutcome::Written));
        }
        let count_only = config.count || config.files_with_matches;
        let need_ranges = config.requires_match_ranges() && !count_only;
        let found = search_input(data, pattern, invert_match, need_ranges, count_only);
        let result = FileResult { path: vstd::slice::slice_to_vec(path), matches: found.matches, is_binary: false };
        let k = result.matches.len();
        proof {
            lemma_format_some(*config, result.path@, matches_view(result.matches@), result.is_binary, number_width as nat);
        }
        let o = format_result(&result, config, out, number_width)?;
        Ok((k, o))
    } else {
        stream_file_contents(path, data, pattern, invert_match, config, out, number_width)
    }
}

} // verus!
