//! Chunked search of large buffers: the buffer is cut at newlines into
//! chunks that threads search independently; joining their results in
//! order gives what a search of the whole buffer gives.

use crate::bytes::count_byte;
use crate::bytes::count_occurrences;
use crate::bytes::lemma_count_subrange;
use crate::bytes::lemma_next_byte_bounds;
use crate::bytes::line_end;
use crate::bytes::next_byte;
use crate::finder::ranges_view;
use crate::pattern::CompiledPattern;
use crate::searcher::LineMatch;
use crate::searcher::LineMatchView;
use crate::searcher::all_writable;
use crate::searcher::is_line_start;
use crate::searcher::lemma_line_number_bound;
use crate::searcher::lemma_line_step;
use crate::searcher::lemma_scan_unfold;
use crate::searcher::line_end_at;
use crate::searcher::line_number_at;
use crate::searcher::line_numbers_fit;
use crate::searcher::mode_ranges;
use crate::searcher::mode_keep;
use crate::searcher::spec_search;
use crate::searcher::spec_count;
use crate::searcher::strip_terminator;
use crate::searcher::hit_by_scan;
use crate::search_laws::lemma_scan_congruent;
use crate::search_laws::lemma_scan_hits_line;
use crate::search_laws::newline_free;
use crate::search_laws::lemma_line_newline_free;
use crate::search_laws::lemma_contained_newline_free;
use crate::search_laws::lemma_prefix_search_is_line_search;
use crate::searcher::stream_matches;
use crate::searcher::line_ranges;
use crate::finder::contains;
use crate::searcher::line_record;
use crate::searcher::matches_view;
use crate::searcher::regex_ranges;
use crate::searcher::scan_lines;
use crate::searcher::selects;
use crate::searcher::writable;
use crate::searcher::has_nul;
use crate::searcher::needs_full_result;
use crate::searcher::is_binary;
use crate::output::OutputConfig;
use crate::output::lemma_matched_lines_some;
use crate::output::matched_lines_output;
use crate::output::opt_view;
use crate::output::write_line_matches;
use vstd::prelude::*;

verus! {

/// Where a chunk cut after position `t` falls: just past the first newline
/// at or after `t`, or at the end of the buffer.
pub open spec fn cut_after(d: Seq<u8>, t: int) -> int {
    if next_byte(d, 10u8, t) < d.len() {
        next_byte(d, 10u8, t) + 1
    } else {
        d.len() as int
    }
}

/// The chunks `split_at_newlines` makes from `start` on: each one at
/// least `size` bytes long and ending just past a newline, with at most
/// `cuts` further cuts; the last chunk runs to the end of the buffer.
pub open spec fn chunk_bounds(d: Seq<u8>, start: int, size: int, cuts: nat) -> Seq<(int, int)>
    decreases cuts,
{
    if cuts == 0 || start + size >= d.len() {
        if start < d.len() {
            seq![(start, d.len() as int)]
        } else {
            Seq::empty()
        }
    } else {
        let b = cut_after(d, start + size);
        seq![(start, b)] + if b >= d.len() {
            Seq::<(int, int)>::empty()
        } else {
            chunk_bounds(d, b, size, (cuts - 1) as nat)
        }
    }
}

/// The chunks as pairs of integers.
pub open spec fn chunks_view(v: Seq<(usize, usize)>) -> Seq<(int, int)> {
    v.map_values(|c: (usize, usize)| (c.0 as int, c.1 as int))
}

/// Chunks that cut `d` at line boundaries: they follow each other without
/// gap from the start to the end, none is empty, and each but the last ends
/// just past a newline.
pub open spec fn chunks_cover(d: Seq<u8>, cs: Seq<(int, int)>) -> bool {
    &&& d.len() > 0 ==> cs.len() > 0 && cs[0].0 == 0 && cs.last().1 == d.len()
    &&& d.len() == 0 ==> cs.len() == 0
    &&& forall|i: int| 0 <= i < cs.len() ==> 0 <= #[trigger] cs[i].0 < cs[i].1 <= d.len()
    &&& forall|i: int| 0 <= i < cs.len() - 1 ==> #[trigger] cs[i].1 == cs[i + 1].0 && d[cs[i].1 - 1] == 10u8
}

/// Splits `data` into at most `n` chunks at newline boundaries: each chunk
/// but the last runs from where the previous one ended to just past the
/// first newline at least `data.len() / n` bytes on.
pub fn split_at_newlines(data: &[u8], n: usize) -> (r: Vec<(usize, usize)>)
    requires
        n >= 1,
    ensures
        chunks_view(r@) == chunk_bounds(data@, 0, (data@.len() / (n as nat)) as int, (n - 1) as nat),
        chunks_cover(data@, chunks_view(r@)),
{
    let len = data.len();
    let chunk_size = len / n;
    let ghost size = chunk_size as int;
    let ghost all = chunk_bounds(data@, 0, size, (n - 1) as nat);
    let mut chunks: Vec<(usize, usize)> = Vec::new();
    let mut start: usize = 0;
    let mut i: usize = 0;
    while i < n - 1
        invariant
            len == data@.len(),
            size == chunk_size,
            i <= n - 1,
            start <= len,
            start < len ==> (start == 0 || data@[start - 1] == 10u8),
            start < len ==> chunks_view(chunks@) + chunk_bounds(data@, start as int, size, (n - 1 - i) as nat) == all,
            start >= len ==> chunks_view(chunks@) == all,
        ensures
            start <= len,
            start < len ==> chunks_view(chunks@) + chunk_bounds(data@, start as int, size, (n - 1 - i) as nat) == all,
            start < len ==> (i == n - 1 || start + size >= len),
            start >= len ==> chunks_view(chunks@) == all,
        decreases n - 1 - i,
    {
        if start >= len || chunk_size >= len - start {
            break;
        }
        let target = start + chunk_size;
        proof { lemma_next_byte_bounds(data@, 10u8, target as int); }
        let sub = &data[target..len];
        let boundary = match memchr::memchr(10u8, sub) {
            Some(pos) => {
                proof {
                    assert(sub@[pos as int] == data@[target + pos]);
                    assert forall|j: int| target <= j < target + pos implies data@[j] != 10u8 by {
                        assert(sub@[j - target] == data@[j]);
                    }
                    crate::bytes::lemma_next_byte_unique(data@, 10u8, target as int, target + pos);
                }
                target + pos + 1
            },
            None => {
                proof {
                    assert forall|j: int| target <= j < len implies data@[j] != 10u8 by {
                        assert(sub@[j - target] == data@[j]);
                    }
                    crate::bytes::lemma_next_byte_unique(data@, 10u8, target as int, len as int);
                }
                len
            },
        };
        assert(boundary == cut_after(data@, start + size));
        let ghost before = chunks_view(chunks@);
        chunks.push((start, boundary));
        assert(chunks_view(chunks@) == before.push((start as int, boundary as int)));
        start = boundary;
        i = i + 1;
    }
    if start < len {
        let ghost before = chunks_view(chunks@);
        chunks.push((start, len));
        assert(chunks_view(chunks@) == before.push((start as int, len as int)));
        assert(chunk_bounds(data@, start as int, size, (n - 1 - i) as nat) == seq![(start as int, len as int)]);
    }
    proof {
        assert(chunks_view(chunks@) == all);
        lemma_chunk_bounds_cover(data@, 0, size, (n - 1) as nat);
        assert(chunks_cover(data@, all));
    }
    chunks
}

/// The chunks of [`chunk_bounds`] cover the buffer from `start` on.
proof fn lemma_chunk_bounds_cover(d: Seq<u8>, start: int, size: int, cuts: nat)
    requires
        0 <= start <= d.len(),
        0 <= size,
        start == 0 || d[start - 1] == 10u8,
    ensures
        ({
            let cs = chunk_bounds(d, start, size, cuts);
            &&& start < d.len() ==> cs.len() > 0 && cs[0].0 == start && cs.last().1 == d.len()
            &&& start == d.len() ==> cs.len() == 0
            &&& forall|i: int| 0 <= i < cs.len() ==> start <= #[trigger] cs[i].0 < cs[i].1 <= d.len()
            &&& forall|i: int| 0 <= i < cs.len() - 1 ==> #[trigger] cs[i].1 == cs[i + 1].0 && d[cs[i].1 - 1] == 10u8
        }),
    decreases cuts,
{
    let cs = chunk_bounds(d, start, size, cuts);
    if cuts == 0 || start + size >= d.len() {
    } else {
        let b = cut_after(d, start + size);
        lemma_next_byte_bounds(d, 10u8, start + size);
        if b < d.len() {
            lemma_chunk_bounds_cover(d, b, size, (cuts - 1) as nat);
            let rest = chunk_bounds(d, b, size, (cuts - 1) as nat);
            assert(cs == seq![(start, b)] + rest);
            assert forall|i: int| 0 <= i < cs.len() implies start <= #[trigger] cs[i].0 < cs[i].1 <= d.len() by {
                if i > 0 {
                    assert(cs[i] == rest[i - 1]);
                }
            }
            assert forall|i: int| 0 <= i < cs.len() - 1 implies #[trigger] cs[i].1 == cs[i + 1].0 && d[cs[i].1 - 1] == 10u8 by {
                assert(cs[i + 1] == rest[i]);
                if i > 0 {
                    assert(cs[i] == rest[i - 1]);
                }
            }
        } else {
            assert(cs == seq![(start, b)]);
        }
    }
}

/// Buffers at least this large are searched in chunks, in parallel.
pub const PARALLEL_THRESHOLD: usize = 4194304;

/// What a chunked search of a file computes.
#[derive(Debug, Clone, Copy, PartialEq, Eq, Structural)]
pub enum ChunkedWork {
    /// The number of selected lines (`-c`).
    Count,
    /// The selected lines themselves.
    Search,
}

/// Whether the contents of a file are searched in chunks by `threads`
/// threads, and for what: only a large text file (no NUL byte), with more
/// than one thread, when the output is streamed line by line (see
/// [`crate::searcher::grep_file`]) and is not a list of file names.
pub fn chunked_work(data: &[u8], config: &OutputConfig, threads: usize) -> (r: Option<ChunkedWork>)
    ensures
        r is Some <==> (!has_nul(data@) && !config.files_with_matches && !needs_full_result(*config)
            && data@.len() >= PARALLEL_THRESHOLD && threads > 1),
        r matches Some(w) ==> (w == ChunkedWork::Count <==> config.count),
{
    if threads <= 1 || data.len() < PARALLEL_THRESHOLD || config.files_with_matches || config.only_matching
        || config.max_count > 0 || config.is_json() || is_binary(data) {
        None
    } else if config.count {
        Some(ChunkedWork::Count)
    } else {
        Some(ChunkedWork::Search)
    }
}

/// Where the lines of each chunk stop: the next chunk's start, or just past
/// the end of the buffer for the last chunk.
pub fn chunk_stops(data: &[u8], chunks: &Vec<(usize, usize)>) -> (r: Vec<usize>)
    requires
        data@.len() < usize::MAX,
        chunks_cover(data@, chunks_view(chunks@)),
    ensures
        r@.len() == chunks@.len(),
        forall|i: int| 0 <= i < r@.len() ==> r@[i] == chunk_stop(data@, chunks_view(chunks@), i),
{
    let n = chunks.len();
    let mut out: Vec<usize> = Vec::new();
    let mut i: usize = 0;
    while i < n
        invariant
            n == chunks@.len(),
            data@.len() < usize::MAX,
            i <= n,
            out@.len() == i,
            forall|q: int| 0 <= q < i ==> out@[q] == chunk_stop(data@, chunks_view(chunks@), q),
        decreases n - i,
    {
        if i + 1 < n {
            assert(chunks_view(chunks@)[i + 1] == (chunks@[i + 1].0 as int, chunks@[i + 1].1 as int));
            out.push(chunks[i + 1].0);
        } else {
            out.push(data.len() + 1);
        }
        i = i + 1;
    }
    out
}

/// The records of the lines that start at `s` or later and before `stop`.
pub open spec fn scan_range(
    d: Seq<u8>,
    s: int,
    stop: int,
    keep: spec_fn(int, int) -> bool,
    ranges: spec_fn(int, int) -> Seq<(int, int)>,
) -> Seq<LineMatchView>
    decreases d.len() + 1 - s,
{
    if s < 0 || s > d.len() || s >= stop {
        Seq::empty()
    } else {
        let e = line_end_at(d, s);
        let here = if keep(s, e) {
            seq![line_record(d, s, ranges(s, e))]
        } else {
            Seq::empty()
        };
        if e >= d.len() {
            here
        } else {
            proof { lemma_next_byte_bounds(d, 10u8, s); }
            here + scan_range(d, e + 1, stop, keep, ranges)
        }
    }
}

/// Scanning from a line start is scanning up to a later line start `t`,
/// then from `t`.
pub proof fn lemma_scan_split(
    d: Seq<u8>,
    s: int,
    t: int,
    keep: spec_fn(int, int) -> bool,
    ranges: spec_fn(int, int) -> Seq<(int, int)>,
)
    requires
        0 <= s <= t,
        s <= d.len(),
        is_line_start(d, s),
        t <= d.len() ==> is_line_start(d, t),
    ensures
        scan_lines(d, s, keep, ranges) == scan_range(d, s, t, keep, ranges) + scan_lines(d, t, keep, ranges),
    decreases d.len() + 1 - s,
{
    let e = line_end_at(d, s);
    lemma_next_byte_bounds(d, 10u8, s);
    lemma_scan_unfold(d, s, keep, ranges);
    if s == t {
        assert(scan_range(d, s, t, keep, ranges) == Seq::<LineMatchView>::empty());
    } else if e >= d.len() {
        // The last line; nothing starts after it.
        if t <= d.len() {
            // t is a line start after s, so a newline lies between them.
            assert(d[t - 1] == 10u8);
            assert(false);
        }
        assert(scan_lines(d, t, keep, ranges) == Seq::<LineMatchView>::empty());
    } else {
        if t <= e {
            assert(d[t - 1] == 10u8);
            assert(false);
        }
        lemma_line_step(d, s);
        lemma_scan_split(d, e + 1, t, keep, ranges);
    }
}

/// Where the lines of chunk `i` stop: at the next chunk's start, or past
/// the end of the buffer for the last chunk (so that a final empty line
/// belongs to it).
pub open spec fn chunk_stop(d: Seq<u8>, cs: Seq<(int, int)>, i: int) -> int {
    if i + 1 < cs.len() {
        cs[i + 1].0
    } else {
        d.len() + 1int
    }
}

/// The records of the chunks from `i` on, joined in order.
pub open spec fn chunk_scans(
    d: Seq<u8>,
    cs: Seq<(int, int)>,
    i: int,
    keep: spec_fn(int, int) -> bool,
    ranges: spec_fn(int, int) -> Seq<(int, int)>,
) -> Seq<LineMatchView>
    decreases cs.len() - i,
{
    if i < 0 || i >= cs.len() {
        Seq::empty()
    } else {
        scan_range(d, cs[i].0, chunk_stop(d, cs, i), keep, ranges) + chunk_scans(d, cs, i + 1, keep, ranges)
    }
}

/// Law: searching the chunks of a non-empty buffer separately and joining
/// the results in order gives the search of the whole buffer.
pub proof fn lemma_chunked_scan(
    d: Seq<u8>,
    cs: Seq<(int, int)>,
    keep: spec_fn(int, int) -> bool,
    ranges: spec_fn(int, int) -> Seq<(int, int)>,
)
    requires
        d.len() > 0,
        chunks_cover(d, cs),
    ensures
        chunk_scans(d, cs, 0, keep, ranges) == scan_lines(d, 0, keep, ranges),
{
    lemma_chunk_scans_from(d, cs, 0, keep, ranges);
}

proof fn lemma_chunk_scans_from(
    d: Seq<u8>,
    cs: Seq<(int, int)>,
    i: int,
    keep: spec_fn(int, int) -> bool,
    ranges: spec_fn(int, int) -> Seq<(int, int)>,
)
    requires
        d.len() > 0,
        chunks_cover(d, cs),
        0 <= i < cs.len(),
    ensures
        chunk_scans(d, cs, i, keep, ranges) == scan_lines(d, cs[i].0, keep, ranges),
    decreases cs.len() - i,
{
    let s = cs[i].0;
    let t = chunk_stop(d, cs, i);
    assert(0 <= s < cs[i].1 <= d.len());
    assert(is_line_start(d, s)) by {
        if i > 0 {
            assert(cs[i - 1].1 == cs[i].0);
        }
    }
    if i + 1 < cs.len() {
        assert(cs[i].1 == cs[i + 1].0);
        lemma_chunk_scans_from(d, cs, i + 1, keep, ranges);
        lemma_scan_split(d, s, t, keep, ranges);
    } else {
        lemma_scan_split(d, s, t, keep, ranges);
        assert(scan_lines(d, t, keep, ranges) == Seq::<LineMatchView>::empty());
        assert(chunk_scans(d, cs, i + 1, keep, ranges) == Seq::<LineMatchView>::empty());
    }
}

/// The line number at which each chunk starts: one more than the newlines
/// before it.
pub fn chunk_first_lines(data: &[u8], chunks: &Vec<(usize, usize)>) -> (r: Vec<u32>)
    requires
        chunks_cover(data@, chunks_view(chunks@)),
        line_numbers_fit(data@),
    ensures
        r@.len() == chunks@.len(),
        forall|i: int| 0 <= i < r@.len() ==> r@[i] == line_number_at(data@, chunks@[i].0 as int),
{
    let n = chunks.len();
    let mut out: Vec<u32> = Vec::new();
    let mut line: u32 = 1;
    let mut i: usize = 0;
    while i < n
        invariant
            n == chunks@.len(),
            chunks_cover(data@, chunks_view(chunks@)),
            line_numbers_fit(data@),
            i <= n,
            out@.len() == i,
            forall|q: int| 0 <= q < i ==> out@[q] == line_number_at(data@, chunks@[q].0 as int),
            i < n ==> line == line_number_at(data@, chunks@[i as int].0 as int),
        decreases n - i,
    {
        let (a, b) = chunks[i];
        assert(chunks_view(chunks@)[i as int] == (a as int, b as int));
        out.push(line);
        if i + 1 < n {
            assert(chunks_view(chunks@)[i + 1] == (chunks@[i + 1].0 as int, chunks@[i + 1].1 as int));
            let part = &data[a..b];
            let newlines = count_occurrences(10u8, part);
            proof {
                lemma_count_subrange(data@, a as int, b as int, 10u8);
                assert(data@.subrange(a as int, b as int) == part@);
                lemma_line_number_bound(data@, b as int);
            }
            line = line + newlines as u32;
        }
        i = i + 1;
    }
    out
}

/// Searches the lines of `data` that start at `start` or later and before
/// `stop`, one line at a time; `first_line` is the number of the line at
/// `start`. Records carry their line numbers and offsets in the whole
/// buffer.
pub fn search_chunk(
    data: &[u8],
    start: usize,
    stop: usize,
    first_line: u32,
    pattern: &CompiledPattern,
    invert_match: bool,
    need_ranges: bool,
) -> (r: ChunkMatches)
    requires
        start <= data@.len(),
        is_line_start(data@, start as int),
        first_line == line_number_at(data@, start as int),
        line_numbers_fit(data@),
    ensures
        r.records() == scan_range(data@, start as int, stop as int,
            selects(data@, *pattern, invert_match), mode_ranges(data@, *pattern, invert_match, need_ranges)),
{
    let ghost keep = selects(data@, *pattern, invert_match);
    let ghost rng = mode_ranges(data@, *pattern, invert_match, need_ranges);
    let ghost total = scan_range(data@, start as int, stop as int, keep, rng);
    let mut matches: Vec<LineMatch> = Vec::new();
    let mut line_no: u32 = first_line;
    let mut pos: usize = start;
    let n = data.len();
    loop
        invariant
            n == data@.len(),
            line_numbers_fit(data@),
            keep == selects(data@, *pattern, invert_match),
            rng == mode_ranges(data@, *pattern, invert_match, need_ranges),
            total == scan_range(data@, start as int, stop as int, keep, rng),
            pos <= n,
            is_line_start(data@, pos as int),
            line_no == line_number_at(data@, pos as int),
            matches_view(matches@) + scan_range(data@, pos as int, stop as int, keep, rng) == total,
            all_writable(matches_view(matches@)),
        decreases n - pos,
    {
        if pos >= stop {
            assert(scan_range(data@, pos as int, stop as int, keep, rng) == Seq::<LineMatchView>::empty());
            assert(matches_view(matches@) == total);
            return ChunkMatches { matches };
        }
        let end = line_end(data, pos);
        proof {
            lemma_next_byte_bounds(data@, 10u8, pos as int);
            lemma_line_number_bound(data@, pos as int);
        }
        let line_bytes = &data[pos..end];
        let line_len = #[verifier::truncate] (line_bytes.len() as u32);
        let is_match = pattern.is_match(line_bytes);
        let should_include = if invert_match { !is_match } else { is_match };
        let ghost before = matches_view(matches@);
        if should_include {
            let match_ranges = if !need_ranges || invert_match {
                Vec::new()
            } else {
                match pattern.literal_finder() {
                    Some(f) => f.occurrence_ranges(line_bytes),
                    None => pattern.regex_find_all(line_bytes),
                }
            };
            let m = LineMatch {
                line_no,
                line: vstd::slice::slice_to_vec(line_bytes),
                match_ranges,
                byte_offset: pos as u64,
                line_len,
            };
            proof {
                assert(ranges_view(m.match_ranges@) == rng(pos as int, end as int)) by {
                    if need_ranges && !invert_match {
                        if pattern.literal_needle() is None {
                            assert(ranges_view(m.match_ranges@) =~= regex_ranges(*pattern, line_bytes@));
                        }
                    }
                }
                assert(m@ == line_record(data@, pos as int, rng(pos as int, end as int)));
                assert(writable(m@));
            }
            matches.push(m);
            assert(matches_view(matches@) == before.push(m@));
        }
        if end == n {
            assert(matches_view(matches@) == total);
            return ChunkMatches { matches };
        }
        proof {
            lemma_line_step(data@, pos as int);
            lemma_line_number_bound(data@, end + 1);
        }
        pos = end + 1;
        line_no = line_no + 1;
    }
}

/// Law: the chunked search of a buffer (its final line terminator
/// dropped), each chunk searched line by line with [`search_chunk`] and the
/// results joined in order, reports what [`crate::searcher::search_input`]
/// reports for the whole buffer. For a literal pattern the needle must hold
/// no newline; for a pattern searched through its literal prefix, every
/// line the regex accepts must contain the prefix.
pub proof fn lemma_chunked_search_is_search(
    data: Seq<u8>,
    cs: Seq<(int, int)>,
    p: CompiledPattern,
    invert: bool,
    need_ranges: bool,
)
    requires
        strip_terminator(data).len() > 0,
        chunks_cover(strip_terminator(data), cs),
        !invert && p.literal_needle() is Some ==> newline_free(p.literal_needle().unwrap()),
        !invert && p.literal_needle() is None && p.prefix_needle() is Some ==> forall|h: Seq<u8>|
            #[trigger] p.regex_accepts(h) ==> contains(h, p.prefix_needle().unwrap()),
    ensures
        ({
            let d = strip_terminator(data);
            chunk_scans(d, cs, 0, selects(d, p, invert), mode_ranges(d, p, invert, need_ranges))
                == spec_search(data, p, invert, need_ranges)
        }),
{
    let d = strip_terminator(data);
    let r = mode_ranges(d, p, invert, need_ranges);
    lemma_chunked_scan(d, cs, selects(d, p, invert), r);
    assert(is_line_start(d, 0));
    assert forall|x: int| #![trigger is_line_start(d, x)] is_line_start(d, x) && 0 <= x <= d.len()
        implies mode_keep(d, p, invert)(x, line_end_at(d, x)) == selects(d, p, invert)(x, line_end_at(d, x)) by {
        if !invert && p.literal_needle() is Some {
            lemma_scan_hits_line(d, p.literal_needle().unwrap(), x);
        } else if !invert && p.prefix_needle() is Some {
            let pf = p.prefix_needle().unwrap();
            let line = d.subrange(x, line_end_at(d, x));
            if p.regex_accepts(line) {
                assert(contains(line, pf));
                lemma_line_newline_free(d, x);
                lemma_contained_newline_free(line, pf);
                lemma_scan_hits_line(d, pf, x);
            }
        }
    }
    lemma_scan_congruent(d, 0, mode_keep(d, p, invert), selects(d, p, invert), r);
}

/// Law: the results that [`search_chunk`] gives for the chunks of a buffer
/// (its final line terminator dropped), whatever the number of chunks,
/// joined in order, are exactly the lines that the streaming search of the
/// whole buffer reports, with the same line numbers, offsets and highlight
/// ranges; so [`write_chunk_matches`] writes what the streaming search
/// writes. For a literal pattern the needle must hold no newline; for a
/// pattern with a literal prefix, every line the regex accepts must contain
/// the prefix.
pub proof fn lemma_chunk_results_are_stream(
    data: Seq<u8>,
    cs: Seq<(int, int)>,
    rs: Seq<ChunkMatches>,
    p: CompiledPattern,
    invert: bool,
    need_ranges: bool,
)
    requires
        strip_terminator(data).len() > 0,
        chunks_cover(strip_terminator(data), cs),
        rs.len() == cs.len(),
        forall|i: int| 0 <= i < cs.len() ==> #[trigger] rs[i].records() == scan_range(strip_terminator(data),
            cs[i].0, chunk_stop(strip_terminator(data), cs, i), selects(strip_terminator(data), p, invert),
            mode_ranges(strip_terminator(data), p, invert, need_ranges)),
        !invert && p.literal_needle() is Some ==> newline_free(p.literal_needle().unwrap()),
        !invert && p.literal_needle() is None && p.prefix_needle() is Some ==> forall|h: Seq<u8>|
            #[trigger] p.regex_accepts(h) ==> contains(h, p.prefix_needle().unwrap()),
    ensures
        flatten_chunks(rs) == stream_matches(data, p, invert, need_ranges),
{
    let d = strip_terminator(data);
    let keep = selects(d, p, invert);
    let r = mode_ranges(d, p, invert, need_ranges);
    lemma_flatten_chunk_scans(d, cs, rs, keep, r, rs.len() as int);
    assert(rs.take(rs.len() as int) == rs);
    assert(chunk_scans(d, cs, cs.len() as int, keep, r) == Seq::<LineMatchView>::empty());
    lemma_chunked_search_is_search(data, cs, p, invert, need_ranges);
    if !invert && p.literal_needle() is None && p.prefix_needle() is Some {
        lemma_prefix_search_is_line_search(data, p, need_ranges);
        assert(mode_ranges(d, p, false, need_ranges) =~= line_ranges(d, p, false, need_ranges));
    }
}

/// The results of the first `k` chunks, joined, followed by the scans of the
/// rest, give the scans of all chunks.
proof fn lemma_flatten_chunk_scans(
    d: Seq<u8>,
    cs: Seq<(int, int)>,
    rs: Seq<ChunkMatches>,
    keep: spec_fn(int, int) -> bool,
    ranges: spec_fn(int, int) -> Seq<(int, int)>,
    k: int,
)
    requires
        0 <= k <= rs.len(),
        rs.len() == cs.len(),
        forall|i: int| 0 <= i < cs.len() ==> #[trigger] rs[i].records() == scan_range(d, cs[i].0,
            chunk_stop(d, cs, i), keep, ranges),
    ensures
        flatten_chunks(rs.take(k)) + chunk_scans(d, cs, k, keep, ranges) == chunk_scans(d, cs, 0, keep, ranges),
    decreases k,
{
    if k > 0 {
        lemma_flatten_chunk_scans(d, cs, rs, keep, ranges, k - 1);
        assert(rs.take(k).drop_last() == rs.take(k - 1));
        assert(rs.take(k).last() == rs[k - 1]);
        assert(flatten_chunks(rs.take(k)) + chunk_scans(d, cs, k, keep, ranges)
            =~= flatten_chunks(rs.take(k - 1)) + chunk_scans(d, cs, k - 1, keep, ranges));
    } else {
        assert(rs.take(0) =~= Seq::<ChunkMatches>::empty());
        assert(flatten_chunks(rs.take(0)) + chunk_scans(d, cs, 0, keep, ranges)
            =~= chunk_scans(d, cs, 0, keep, ranges));
    }
}

/// Counts the lines of `data` that start at `start` or later and before
/// `stop` and that the pattern selects (or, inverted, rejects).
pub fn count_chunk(
    data: &[u8],
    start: usize,
    stop: usize,
    pattern: &CompiledPattern,
    invert_match: bool,
) -> (r: usize)
    requires
        start <= data@.len(),
        is_line_start(data@, start as int),
    ensures
        r == scan_range(data@, start as int, stop as int, selects(data@, *pattern, invert_match),
            mode_ranges(data@, *pattern, invert_match, false)).len(),
{
    let ghost keep = selects(data@, *pattern, invert_match);
    let ghost rng = mode_ranges(data@, *pattern, invert_match, false);
    let ghost total = scan_range(data@, start as int, stop as int, keep, rng);
    let mut count: usize = 0;
    let mut pos: usize = start;
    let n = data.len();
    loop
        invariant
            n == data@.len(),
            keep == selects(data@, *pattern, invert_match),
            rng == mode_ranges(data@, *pattern, invert_match, false),
            total == scan_range(data@, start as int, stop as int, keep, rng),
            pos <= n,
            is_line_start(data@, pos as int),
            count + scan_range(data@, pos as int, stop as int, keep, rng).len() == total.len(),
            count <= pos,
        decreases n - pos,
    {
        if pos >= stop {
            return count;
        }
        let end = line_end(data, pos);
        proof {
            lemma_next_byte_bounds(data@, 10u8, pos as int);
        }
        let is_match = pattern.is_match(&data[pos..end]);
        let should_include = if invert_match { !is_match } else { is_match };
        if should_include {
            count = count + 1;
        }
        if end == n {
            return count;
        }
        proof {
            lemma_line_step(data@, pos as int);
        }
        pos = end + 1;
    }
}

/// The sum of the counts of the chunks from `i` on.
pub open spec fn chunk_count_sum(
    d: Seq<u8>,
    cs: Seq<(int, int)>,
    i: int,
    keep: spec_fn(int, int) -> bool,
    ranges: spec_fn(int, int) -> Seq<(int, int)>,
) -> int
    decreases cs.len() - i,
{
    if i < 0 || i >= cs.len() {
        0
    } else {
        scan_range(d, cs[i].0, chunk_stop(d, cs, i), keep, ranges).len() + chunk_count_sum(d, cs, i + 1, keep, ranges)
    }
}

/// The sum of a list of counts.
pub open spec fn counts_sum(v: Seq<usize>) -> nat
    decreases v.len(),
{
    if v.len() == 0 {
        0
    } else {
        counts_sum(v.drop_last()) + v.last() as nat
    }
}

/// Adds up the counts of the chunks; the sum cannot exceed the number of
/// lines, but it saturates at `usize::MAX` for any other list.
pub fn total_count(counts: &[usize]) -> (r: usize)
    ensures
        r == if counts_sum(counts@) > usize::MAX { usize::MAX as nat } else { counts_sum(counts@) },
{
    let mut total: usize = 0;
    let mut i: usize = 0;
    while i < counts.len()
        invariant
            i <= counts@.len(),
            total == if counts_sum(counts@.take(i as int)) > usize::MAX {
                usize::MAX as nat
            } else {
                counts_sum(counts@.take(i as int))
            },
        decreases counts@.len() - i,
    {
        assert(counts@.take(i + 1).drop_last() == counts@.take(i as int));
        assert(counts@.take(i + 1).last() == counts@[i as int]);
        total = total.saturating_add(counts[i]);
        i = i + 1;
    }
    assert(counts@.take(counts@.len() as int) == counts@);
    total
}

/// Law: the counts of the chunks add up to the count of the whole buffer
/// (its final line terminator dropped), under the conditions of
/// [`lemma_chunked_search_is_search`].
pub proof fn lemma_chunked_count_is_count(data: Seq<u8>, cs: Seq<(int, int)>, p: CompiledPattern, invert: bool)
    requires
        strip_terminator(data).len() > 0,
        chunks_cover(strip_terminator(data), cs),
        !invert && p.literal_needle() is Some ==> newline_free(p.literal_needle().unwrap()),
        !invert && p.literal_needle() is None && p.prefix_needle() is Some ==> forall|h: Seq<u8>|
            #[trigger] p.regex_accepts(h) ==> contains(h, p.prefix_needle().unwrap()),
    ensures
        ({
            let d = strip_terminator(data);
            chunk_count_sum(d, cs, 0, selects(d, p, invert), mode_ranges(d, p, invert, false))
                == spec_count(data, p, invert)
        }),
{
    let d = strip_terminator(data);
    lemma_chunked_search_is_search(data, cs, p, invert, false);
    lemma_count_sum_len(d, cs, 0, selects(d, p, invert), mode_ranges(d, p, invert, false));
}

proof fn lemma_count_sum_len(
    d: Seq<u8>,
    cs: Seq<(int, int)>,
    i: int,
    keep: spec_fn(int, int) -> bool,
    ranges: spec_fn(int, int) -> Seq<(int, int)>,
)
    requires
        0 <= i,
    ensures
        chunk_count_sum(d, cs, i, keep, ranges) == chunk_scans(d, cs, i, keep, ranges).len(),
    decreases cs.len() - i,
{
    if i < cs.len() {
        lemma_count_sum_len(d, cs, i + 1, keep, ranges);
    }
}

/// The matches found in one chunk, ready to be written: every one of them
/// has ordered highlight ranges inside its line.
pub struct ChunkMatches {
    matches: Vec<LineMatch>,
}

impl ChunkMatches {
    #[verifier::type_invariant]
    spec fn writable_matches(self) -> bool {
        all_writable(matches_view(self.matches@))
    }

    /// The records found.
    pub closed spec fn records(&self) -> Seq<LineMatchView> {
        matches_view(self.matches@)
    }

    /// The matches found.
    pub fn into_matches(self) -> (r: Vec<LineMatch>)
        ensures
            matches_view(r@) == self.records(),
            all_writable(matches_view(r@)),
    {
        proof { use_type_invariant(&self); }
        self.matches
    }
}

/// The records of a list of chunk results, joined in order.
pub open spec fn flatten_chunks(rs: Seq<ChunkMatches>) -> Seq<LineMatchView>
    decreases rs.len(),
{
    if rs.len() == 0 {
        Seq::empty()
    } else {
        flatten_chunks(rs.drop_last()) + rs.last().records()
    }
}

/// Joins the results of the chunks, in order.
pub fn merge_chunk_matches(results: Vec<ChunkMatches>) -> (r: Vec<LineMatch>)
    ensures
        matches_view(r@) == flatten_chunks(results@),
        all_writable(matches_view(r@)),
{
    let mut out: Vec<LineMatch> = Vec::new();
    let mut rest = results;
    let ghost all = rest@;
    let mut done: usize = 0;
    let n = rest.len();
    // Take the results out from the back, then put them in order.
    let mut parts: Vec<ChunkMatches> = Vec::new();
    while rest.len() > 0
        invariant
            all.len() == n,
            rest@.len() + parts@.len() == n,
            rest@ == all.take(rest@.len() as int),
            forall|k: int| 0 <= k < parts@.len() ==> parts@[k] == all[n - 1 - k],
        decreases rest@.len(),
    {
        let v = rest.pop().unwrap();
        parts.push(v);
    }
    assert(flatten_chunks(all.take(0)) == Seq::<LineMatchView>::empty());
    while parts.len() > 0
        invariant
            all.len() == n,
            done + parts@.len() == n,
            forall|k: int| 0 <= k < parts@.len() ==> parts@[k] == all[n - 1 - k],
            matches_view(out@) == flatten_chunks(all.take(done as int)),
            all_writable(matches_view(out@)),
        decreases parts@.len(),
    {
        let part = parts.pop().unwrap();
        assert(part == all[done as int]);
        let mut v = part.into_matches();
        let ghost vv = matches_view(v@);
        let ghost before = matches_view(out@);
        out.append(&mut v);
        assert(matches_view(out@) == before + vv);
        assert(all.take(done + 1).drop_last() == all.take(done as int));
        assert forall|i: int| 0 <= i < matches_view(out@).len() implies writable(#[trigger] matches_view(out@)[i]) by {
            if i < before.len() {
                assert(matches_view(out@)[i] == before[i]);
            } else {
                assert(matches_view(out@)[i] == vv[i - before.len()]);
            }
        }
        done = done + 1;
    }
    assert(all.take(n as int) == all);
    out
}

/// Writes the matches of the chunks, in order, as [`write_line_matches`]
/// writes a list of matches; returns how many were written.
pub fn write_chunk_matches(
    out: &mut Vec<u8>,
    config: &OutputConfig,
    path_bytes: Option<&[u8]>,
    results: Vec<ChunkMatches>,
    number_width: usize,
) -> (r: Result<usize, serde_json::Error>)
    ensures
        matched_lines_output(*config, opt_view(path_bytes), flatten_chunks(results@), number_width as nat) is Some,
        r matches Ok(k) ==> k == flatten_chunks(results@).len() && final(out)@ == old(out)@
            + matched_lines_output(*config, opt_view(path_bytes), flatten_chunks(results@), number_width as nat).unwrap(),
        r is Ok,
{
    let ms = merge_chunk_matches(results);
    proof {
        lemma_matched_lines_some(*config, opt_view(path_bytes), matches_view(ms@), number_width as nat);
    }
    write_line_matches(out, config, path_bytes, ms.as_slice(), number_width)
}

} // verus!
