//! Formatting of search results, byte for byte as GNU grep prints them:
//! file names, line numbers and byte offsets, colour, truncation of long
//! lines, `-c`, `-l` and `-o` modes, context lines and JSON Lines records.
//!
//! Every writer appends to a byte buffer; the caller sends the bytes on.

use crate::cli::OutputMode;
use crate::cli::ResolvedConfig;
use crate::searcher::FileResult;
use crate::searcher::LineMatch;
use crate::searcher::LineMatchView;
use crate::searcher::matches_view;
use crate::searcher::all_writable;
use crate::searcher::writable;
use crate::finder::ordered_ranges;
use vstd::prelude::*;
use vstd::utf8::encode_utf8;

verus! {

/// Controls how search results are formatted on output.
#[derive(Clone)]
pub struct OutputConfig {
    pub mode: OutputMode,
    pub color: bool,
    pub line_number: bool,
    pub files_with_matches: bool,
    pub files_without_match: bool,
    pub count: bool,
    pub quiet: bool,
    pub max_count: usize,
    pub multi_file: bool,
    /// Max line length before truncation (0 = no limit).
    pub max_line_len: usize,
    /// Print only matched parts of a line (-o).
    pub only_matching: bool,
    /// Lines of context after a match (-A).
    pub after_context: usize,
    /// Lines of context before a match (-B).
    pub before_context: usize,
    /// Print byte offset before each line (-b).
    pub byte_offset: bool,
    /// Ignore binary files (-I).
    pub ignore_binary: bool,
    /// Group separator for context output. `None` = no separator.
    pub group_separator: Option<String>,
    /// Insert tab after prefix (-T).
    pub initial_tab: bool,
    /// Print NUL byte after filename (-Z).
    pub null: bool,
    /// Treat binary files as text (-a).
    pub text: bool,
}

impl OutputConfig {
    pub open spec fn spec_is_json(&self) -> bool {
        self.mode == OutputMode::Json
    }

    /// Whether records are JSON Lines.
    pub fn is_json(&self) -> (r: bool)
        ensures
            r == self.spec_is_json(),
    {
        match self.mode {
            OutputMode::Json => true,
            OutputMode::Text => false,
        }
    }

    /// The output settings of a resolved configuration.
    pub fn from_config(config: &ResolvedConfig) -> (r: OutputConfig)
        ensures
            r.mode == config.output_mode,
            r.color == config.color,
            r.line_number == config.line_number,
            r.files_with_matches == config.files_with_matches,
            r.files_without_match == config.files_without_match,
            r.count == config.count,
            r.quiet == config.quiet,
            r.max_count == config.max_count,
            r.multi_file == config.multi_file,
            r.max_line_len == config.max_line_len,
            r.only_matching == config.only_matching,
            r.after_context == config.after_context,
            r.before_context == config.before_context,
            r.byte_offset == config.byte_offset,
            r.ignore_binary == config.ignore_binary,
            opt_string_view(r.group_separator) == opt_string_view(config.group_separator),
            r.initial_tab == config.initial_tab,
            r.null == config.null,
            r.text == config.text,
    {
        OutputConfig {
            mode: config.output_mode,
            color: config.color,
            line_number: config.line_number,
            files_with_matches: config.files_with_matches,
            files_without_match: config.files_without_match,
            count: config.count,
            quiet: config.quiet,
            max_count: config.max_count,
            multi_file: config.multi_file,
            max_line_len: config.max_line_len,
            only_matching: config.only_matching,
            after_context: config.after_context,
            before_context: config.before_context,
            byte_offset: config.byte_offset,
            ignore_binary: config.ignore_binary,
            group_separator: match &config.group_separator {
                Some(g) => Some(g.clone()),
                None => None,
            },
            initial_tab: config.initial_tab,
            null: config.null,
            text: config.text,
        }
    }

    /// Whether the searcher must compute match ranges: for colour, `-o` and
    /// JSON.
    pub fn requires_match_ranges(&self) -> (r: bool)
        ensures
            r == (self.color || self.only_matching || self.spec_is_json()),
    {
        self.color || self.only_matching || self.is_json()
    }
}

/// The text of an optional string.
pub open spec fn opt_string_view(s: Option<String>) -> Option<Seq<char>> {
    match s {
        Some(t) => Some(t@),
        None => None,
    }
}

/// `ESC [ 35 m`: file names.
pub open spec fn color_filename() -> Seq<u8> {
    seq![27u8, 91u8, 51u8, 53u8, 109u8]
}

/// `ESC [ 32 m`: line numbers and offsets.
pub open spec fn color_line_no() -> Seq<u8> {
    seq![27u8, 91u8, 51u8, 50u8, 109u8]
}

/// `ESC [ 01 ; 31 m`: matched text.
pub open spec fn color_match() -> Seq<u8> {
    seq![27u8, 91u8, 48u8, 49u8, 59u8, 51u8, 49u8, 109u8]
}

/// `ESC [ 0 m`: back to plain.
pub open spec fn color_reset() -> Seq<u8> {
    seq![27u8, 91u8, 48u8, 109u8]
}

/// `ESC [ 36 m`: separators.
pub open spec fn color_sep() -> Seq<u8> {
    seq![27u8, 91u8, 51u8, 54u8, 109u8]
}

/// Appends `b` to `out`.
pub fn append_bytes(out: &mut Vec<u8>, b: &[u8])
    ensures
        final(out)@ == old(out)@ + b@,
{
    let n = b.len();
    let ghost start = out@;
    for i in 0..n
        invariant
            n == b@.len(),
            out@ == start + b@.take(i as int),
    {
        out.push(b[i]);
        assert(b@.take(i + 1) == b@.take(i as int).push(b@[i as int]));
    }
    assert(b@.take(n as int) == b@);
}

fn write_color_filename(out: &mut Vec<u8>)
    ensures
        final(out)@ == old(out)@ + color_filename(),
{
    out.push(27u8);
    out.push(91u8);
    out.push(51u8);
    out.push(53u8);
    out.push(109u8);
}

fn write_color_line_no(out: &mut Vec<u8>)
    ensures
        final(out)@ == old(out)@ + color_line_no(),
{
    out.push(27u8);
    out.push(91u8);
    out.push(51u8);
    out.push(50u8);
    out.push(109u8);
}

fn write_color_match(out: &mut Vec<u8>)
    ensures
        final(out)@ == old(out)@ + color_match(),
{
    out.push(27u8);
    out.push(91u8);
    out.push(48u8);
    out.push(49u8);
    out.push(59u8);
    out.push(51u8);
    out.push(49u8);
    out.push(109u8);
}

fn write_color_reset(out: &mut Vec<u8>)
    ensures
        final(out)@ == old(out)@ + color_reset(),
{
    out.push(27u8);
    out.push(91u8);
    out.push(48u8);
    out.push(109u8);
}

fn write_color_sep(out: &mut Vec<u8>)
    ensures
        final(out)@ == old(out)@ + color_sep(),
{
    out.push(27u8);
    out.push(91u8);
    out.push(51u8);
    out.push(54u8);
    out.push(109u8);
}

/// The decimal digits of `v`.
pub open spec fn decimal(v: nat) -> Seq<u8>
    decreases v,
{
    if v < 10 {
        seq![(48 + v) as u8]
    } else {
        decimal(v / 10).push((48 + v % 10) as u8)
    }
}

/// `itoa::Buffer::format`: the decimal representation of `v`.
#[verifier::external_body]
pub(crate) fn format_decimal(v: u64) -> (r: Vec<u8>)
    ensures
        r@ == decimal(v as nat),
{
    let mut buf = itoa::Buffer::new();
    buf.format(v).as_bytes().to_vec()
}

/// Line-number field width used for standard input when `-T` is on: the
/// digits of `i64::MAX`, as GNU grep uses for input of unknown size.
pub const TAB_FIELD_WIDTH_STDIN: usize = 19;

/// Line-number field width for a file of `size` bytes when `-T` is on: the
/// number of decimal digits of the size.
pub fn field_width(size: u64) -> (r: usize)
    ensures
        r == decimal(size as nat).len(),
{
    format_decimal(size).len()
}

/// The separator after a file name: NUL with `-Z`, otherwise `sep`,
/// coloured when colour is on.
pub open spec fn filename_sep(c: OutputConfig, sep: u8) -> Seq<u8> {
    if c.null {
        seq![0u8]
    } else if c.color {
        color_sep() + seq![sep] + color_reset()
    } else {
        seq![sep]
    }
}

/// Writes the filename separator: NUL when -Z is active, otherwise `sep`.
fn write_filename_sep(out: &mut Vec<u8>, config: &OutputConfig, sep: u8)
    ensures
        final(out)@ == old(out)@ + filename_sep(*config, sep),
{
    if config.null {
        out.push(0u8);
    } else if config.color {
        write_color_sep(out);
        out.push(sep);
        write_color_reset(out);
    } else {
        out.push(sep);
    }
}

/// The file name, coloured when colour is on.
pub open spec fn filename_text(c: OutputConfig, path: Seq<u8>) -> Seq<u8> {
    if c.color {
        color_filename() + path + color_reset()
    } else {
        path
    }
}

fn write_filename(out: &mut Vec<u8>, config: &OutputConfig, path: &[u8])
    ensures
        final(out)@ == old(out)@ + filename_text(*config, path@),
{
    if config.color {
        write_color_filename(out);
        append_bytes(out, path);
        write_color_reset(out);
    } else {
        append_bytes(out, path);
    }
}

/// `n` spaces.
pub open spec fn spaces(n: nat) -> Seq<u8> {
    Seq::new(n, |i: int| 32u8)
}

/// Padding that right-aligns a number of `len` digits to `width` under `-T`.
pub open spec fn number_pad(c: OutputConfig, len: nat, width: nat) -> Seq<u8> {
    if c.initial_tab && width > len { spaces((width - len) as nat) } else { Seq::empty() }
}

/// The number and its separator, coloured when colour is on.
pub open spec fn number_body(c: OutputConfig, num: Seq<u8>, sep: u8) -> Seq<u8> {
    if c.color {
        color_line_no() + num + color_reset() + color_sep() + seq![sep] + color_reset()
    } else {
        num + seq![sep]
    }
}

/// A numeric field (line number or byte offset) and its separator: with
/// `-T` the number is right-aligned to `width` and the last field is
/// followed by a tab.
pub open spec fn numeric_field(c: OutputConfig, value: nat, sep: u8, is_last_field: bool, width: nat) -> Seq<u8> {
    let num = decimal(value);
    number_pad(c, num.len(), width) + number_body(c, num, sep)
        + (if c.initial_tab && is_last_field { seq![9u8] } else { Seq::empty() })
}

fn write_number_pad(out: &mut Vec<u8>, config: &OutputConfig, len: usize, number_width: usize)
    ensures
        final(out)@ == old(out)@ + number_pad(*config, len as nat, number_width as nat),
{
    let ghost start = out@;
    if config.initial_tab && number_width > len {
        let pad = number_width - len;
        for i in 0..pad
            invariant
                out@ == start + spaces(i as nat),
        {
            out.push(32u8);
            assert(spaces((i + 1) as nat) == spaces(i as nat).push(32u8));
        }
    } else {
        assert(out@ == start + Seq::<u8>::empty());
    }
}

fn write_number_body(out: &mut Vec<u8>, config: &OutputConfig, num: &[u8], sep: u8)
    ensures
        final(out)@ == old(out)@ + number_body(*config, num@, sep),
{
    let ghost start = out@;
    if config.color {
        write_color_line_no(out);
        append_bytes(out, num);
        write_color_reset(out);
        write_color_sep(out);
        out.push(sep);
        write_color_reset(out);
        assert(out@ =~= start + number_body(*config, num@, sep));
    } else {
        append_bytes(out, num);
        out.push(sep);
        assert(out@ =~= start + number_body(*config, num@, sep));
    }
}

/// Writes a numeric field (line number or byte offset) with its separator.
fn write_numeric_field(
    out: &mut Vec<u8>,
    config: &OutputConfig,
    value: u64,
    sep: u8,
    is_last_field: bool,
    number_width: usize,
)
    ensures
        final(out)@ == old(out)@ + numeric_field(*config, value as nat, sep, is_last_field, number_width as nat),
{
    let ghost start = out@;
    let num = format_decimal(value);
    write_number_pad(out, config, num.len(), number_width);
    write_number_body(out, config, num.as_slice(), sep);
    let ghost before_tab = out@;
    if config.initial_tab && is_last_field {
        out.push(9u8);
    }
    assert(out@ =~= start + numeric_field(*config, value as nat, sep, is_last_field, number_width as nat));
}

/// A UTF-8 continuation byte (`10xxxxxx`).
pub open spec fn is_continuation(b: u8) -> bool {
    b & 0xC0u8 == 0x80u8
}

/// Moves a cut point back until it no longer splits a UTF-8 sequence.
pub open spec fn cut_back(line: Seq<u8>, end: int) -> int
    decreases end,
{
    if end > 0 && end < line.len() && is_continuation(line[end]) {
        cut_back(line, end - 1)
    } else {
        end
    }
}

/// The line cut at `max_len` bytes on a character boundary, and whether it
/// was cut; `max_len == 0` means no limit.
pub open spec fn spec_truncate(line: Seq<u8>, max_len: nat) -> (Seq<u8>, bool) {
    if max_len == 0 || line.len() <= max_len {
        (line, false)
    } else {
        (line.take(cut_back(line, max_len as int)), true)
    }
}

/// Truncates a line at `max_len` bytes (on a char boundary) if needed.
/// Returns the (possibly truncated) slice and whether truncation occurred.
fn truncate_line(line: &[u8], max_len: usize) -> (r: (&[u8], bool))
    ensures
        (r.0@, r.1) == spec_truncate(line@, max_len as nat),
{
    if max_len == 0 || line.len() <= max_len {
        return (line, false);
    }
    let mut end = max_len;
    while end > 0 && end < line.len() && line[end] & 0xC0u8 == 0x80u8
        invariant
            end <= max_len < line@.len(),
            cut_back(line@, end as int) == cut_back(line@, max_len as int),
        decreases end,
    {
        end = end - 1;
    }
    (&line[0..end], true)
}

/// The message appended to a truncated line.
pub open spec fn truncation_note() -> Seq<u8> {
    encode_utf8(" [truncated, see grep --help for --max-line-len]"@)
}

fn write_truncation_note(out: &mut Vec<u8>)
    ensures
        final(out)@ == old(out)@ + truncation_note(),
{
    append_bytes(out, " [truncated, see grep --help for --max-line-len]".as_bytes());
}

/// The line text from `last_end` with the ranges from `i` on highlighted, or
/// `None` when a range would slice the line out of order (the writer then
/// has no defined output).
pub open spec fn highlight_from(line: Seq<u8>, ranges: Seq<(int, int)>, i: int, last_end: int) -> Option<Seq<u8>>
    decreases ranges.len() - i,
{
    if i < 0 || i >= ranges.len() || ranges[i].0 >= line.len() {
        if 0 <= last_end <= line.len() {
            Some(line.subrange(last_end, line.len() as int))
        } else {
            None
        }
    } else {
        let s = ranges[i].0;
        let e = if ranges[i].1 < line.len() { ranges[i].1 } else { line.len() as int };
        if last_end < 0 || last_end > s || s > e {
            None
        } else {
            match highlight_from(line, ranges, i + 1, e) {
                Some(rest) => Some(line.subrange(last_end, s) + color_match() + line.subrange(s, e) + color_reset() + rest),
                None => None,
            }
        }
    }
}

/// Writes the line with its match ranges highlighted.
fn write_highlighted(out: &mut Vec<u8>, line: &[u8], match_ranges: &[core::ops::Range<usize>])
    requires
        highlight_from(line@, crate::finder::ranges_view(match_ranges@), 0, 0) is Some,
    ensures
        final(out)@ == old(out)@ + highlight_from(line@, crate::finder::ranges_view(match_ranges@), 0, 0).unwrap(),
{
    let ghost rv = crate::finder::ranges_view(match_ranges@);
    let ghost start = out@;
    let n = match_ranges.len();
    let mut last_end: usize = 0;
    let mut i: usize = 0;
    while i < n
        invariant_except_break
            i <= n,
            last_end <= line@.len(),
            highlight_from(line@, rv, i as int, last_end as int) is Some,
            start + highlight_from(line@, rv, 0, 0).unwrap()
                == out@ + highlight_from(line@, rv, i as int, last_end as int).unwrap(),
        invariant
            n == match_ranges@.len(),
            rv == crate::finder::ranges_view(match_ranges@),
        ensures
            last_end <= line@.len(),
            start + highlight_from(line@, rv, 0, 0).unwrap()
                == out@ + line@.subrange(last_end as int, line@.len() as int),
        decreases n - i,
    {
        let range = &match_ranges[i];
        if range.start >= line.len() {
            break;
        }
        let end = if range.end < line.len() { range.end } else { line.len() };
        let ghost rest = highlight_from(line@, rv, i + 1, end as int);
        assert(rest is Some);
        append_bytes(out, &line[last_end..range.start]);
        write_color_match(out);
        append_bytes(out, &line[range.start..end]);
        write_color_reset(out);
        proof {
            assert(highlight_from(line@, rv, i as int, last_end as int).unwrap()
                == line@.subrange(last_end as int, range.start as int) + color_match()
                    + line@.subrange(range.start as int, end as int) + color_reset() + rest.unwrap());
        }
        last_end = end;
        i = i + 1;
    }
    append_bytes(out, &line[last_end..line.len()]);
}

/// The file-name prefix of an output line: the name, then the separator.
pub open spec fn path_prefix(c: OutputConfig, path: Option<Seq<u8>>, sep: u8) -> Seq<u8> {
    match path {
        Some(p) => filename_text(c, p) + filename_sep(c, sep),
        None => Seq::empty(),
    }
}

fn write_path_prefix(out: &mut Vec<u8>, config: &OutputConfig, path_bytes: Option<&[u8]>, sep: u8)
    ensures
        final(out)@ == old(out)@ + path_prefix(*config, match path_bytes { Some(p) => Some(p@), None => None }, sep),
{
    if let Some(p) = path_bytes {
        write_filename(out, config, p);
        write_filename_sep(out, config, sep);
    }
}

/// The line-number and byte-offset fields that `-n` and `-b` ask for.
pub open spec fn number_fields(c: OutputConfig, line_no: nat, byte_off: nat, sep: u8, width: nat) -> Seq<u8> {
    (if c.line_number { numeric_field(c, line_no, sep, !c.byte_offset, width) } else { Seq::empty() })
        + (if c.byte_offset { numeric_field(c, byte_off, sep, true, width) } else { Seq::empty() })
}

fn write_number_fields(out: &mut Vec<u8>, config: &OutputConfig, line_no: u64, byte_off: u64, sep: u8, number_width: usize)
    ensures
        final(out)@ == old(out)@ + number_fields(*config, line_no as nat, byte_off as nat, sep, number_width as nat),
{
    let ghost start = out@;
    if config.line_number {
        write_numeric_field(out, config, line_no, sep, !config.byte_offset, number_width);
    }
    let ghost mid = out@;
    if config.byte_offset {
        write_numeric_field(out, config, byte_off, sep, true, number_width);
    }
    assert(out@ =~= start + number_fields(*config, line_no as nat, byte_off as nat, sep, number_width as nat));
}

/// The text of a line after its prefix: truncated to `max_line_len`,
/// highlighted when colour is on and there are ranges, then the truncation
/// note if it was cut, then a newline.
pub open spec fn line_body(c: OutputConfig, line: Seq<u8>, ranges: Seq<(int, int)>) -> Option<Seq<u8>> {
    let (t, cut) = spec_truncate(line, c.max_line_len as nat);
    let shown = if c.color && ranges.len() > 0 { highlight_from(t, ranges, 0, 0) } else { Some(t) };
    match shown {
        Some(b) => Some(b + (if cut { truncation_note() } else { Seq::empty() }) + seq![10u8]),
        None => None,
    }
}

/// A matching line as text: file name, numbers, then the line body.
pub open spec fn text_match_line(
    c: OutputConfig,
    path: Option<Seq<u8>>,
    line_no: nat,
    byte_off: nat,
    line: Seq<u8>,
    ranges: Seq<(int, int)>,
    width: nat,
) -> Option<Seq<u8>> {
    match line_body(c, line, ranges) {
        Some(b) => Some(path_prefix(c, path, 58u8) + number_fields(c, line_no, byte_off, 58u8, width) + b),
        None => None,
    }
}

/// Writes the body of a line: truncation, highlighting, note, newline.
fn write_line_body(out: &mut Vec<u8>, config: &OutputConfig, line: &[u8], match_ranges: &[core::ops::Range<usize>])
    requires
        line_body(*config, line@, crate::finder::ranges_view(match_ranges@)) is Some,
    ensures
        final(out)@ == old(out)@ + line_body(*config, line@, crate::finder::ranges_view(match_ranges@)).unwrap(),
{
    let ghost start = out@;
    let (line, truncated) = truncate_line(line, config.max_line_len);
    if config.color && match_ranges.len() > 0 {
        write_highlighted(out, line, match_ranges);
    } else {
        append_bytes(out, line);
    }
    if truncated {
        write_truncation_note(out);
    }
    out.push(10u8);
}

/// The path as an optional byte sequence.
pub open spec fn opt_view(p: Option<&[u8]>) -> Option<Seq<u8>> {
    match p {
        Some(b) => Some(b@),
        None => None,
    }
}

/// Writes a matching line as text.
fn write_text_line_match(
    out: &mut Vec<u8>,
    config: &OutputConfig,
    path_bytes: Option<&[u8]>,
    line_no: u32,
    byte_off: u64,
    line: &[u8],
    match_ranges: &[core::ops::Range<usize>],
    number_width: usize,
)
    requires
        text_match_line(*config, opt_view(path_bytes), line_no as nat, byte_off as nat, line@,
            crate::finder::ranges_view(match_ranges@), number_width as nat) is Some,
    ensures
        final(out)@ == old(out)@ + text_match_line(*config, opt_view(path_bytes), line_no as nat, byte_off as nat,
            line@, crate::finder::ranges_view(match_ranges@), number_width as nat).unwrap(),
{
    let ghost start = out@;
    write_path_prefix(out, config, path_bytes, 58u8);
    write_number_fields(out, config, line_no as u64, byte_off, 58u8, number_width);
    write_line_body(out, config, line, match_ranges);
    assert(out@ =~= start + text_match_line(*config, opt_view(path_bytes), line_no as nat, byte_off as nat,
        line@, crate::finder::ranges_view(match_ranges@), number_width as nat).unwrap());
}

#[verifier::external_type_specification]
#[verifier::external_body]
pub struct ExJsonError(serde_json::Error);

/// `String::from_utf8_lossy`: the text of `b`, with each invalid sequence
/// replaced by U+FFFD.
pub uninterp spec fn utf8_lossy(b: Seq<u8>) -> Seq<char>;

/// A lowercase hexadecimal digit, for `d < 16`.
pub open spec fn json_hex_digit(d: int) -> u8 {
    if d < 10 { (48 + d) as u8 } else { (87 + d) as u8 }
}

/// How `serde_json` writes one character of a string: `"` and `\` with a
/// backslash; backspace, tab, newline, form feed and carriage return as
/// `\b`, `\t`, `\n`, `\f`, `\r`; other characters below U+0020 as `\u00`
/// and two lowercase hexadecimal digits; every other character as its UTF-8
/// bytes.
pub open spec fn json_char(c: char) -> Seq<u8> {
    let u = c as u32;
    if u == 0x22 {
        seq![92u8, 34u8]
    } else if u == 0x5C {
        seq![92u8, 92u8]
    } else if u == 0x08 {
        seq![92u8, 98u8]
    } else if u == 0x09 {
        seq![92u8, 116u8]
    } else if u == 0x0A {
        seq![92u8, 110u8]
    } else if u == 0x0C {
        seq![92u8, 102u8]
    } else if u == 0x0D {
        seq![92u8, 114u8]
    } else if u < 0x20 {
        seq![92u8, 117u8, 48u8, 48u8, json_hex_digit((u / 16) as int), json_hex_digit((u % 16) as int)]
    } else {
        encode_utf8(seq![c])
    }
}

/// The escaped characters of a string, in order.
pub open spec fn json_chars(s: Seq<char>) -> Seq<u8>
    decreases s.len(),
{
    if s.len() == 0 {
        Seq::empty()
    } else {
        json_chars(s.drop_last()) + json_char(s.last())
    }
}

/// What `serde_json` writes for a string value: the escaped text between
/// double quotes.
pub open spec fn json_string(s: Seq<char>) -> Seq<u8> {
    seq![34u8] + json_chars(s) + seq![34u8]
}

/// `String::from_utf8_lossy(bytes).into_owned()`.
#[verifier::external_body]
pub(crate) fn lossy_string(bytes: &[u8]) -> (r: String)
    ensures
        r@ == utf8_lossy(bytes@),
{
    String::from_utf8_lossy(bytes).into_owned()
}

/// `serde_json::to_vec` of a string value: the text between double quotes,
/// escaped as [`json_string`] states (serde_json's escape table and compact
/// formatter). For a `str` the serializer only escapes the text and writes
/// it into a fresh `Vec<u8>`, a writer that never fails, and a `str` holds no
/// map keys, so the call always returns `Ok`.
#[verifier::external_body]
pub(crate) fn json_quote(s: &str) -> (r: Result<Vec<u8>, serde_json::Error>)
    ensures
        r is Ok,
        r matches Ok(v) ==> v@ == json_string(s@),
{
    serde_json::to_vec(s)
}

/// The JSON string for the text of some bytes.
pub open spec fn json_text(b: Seq<u8>) -> Seq<u8> {
    json_string(utf8_lossy(b))
}

/// The bytes of a string literal.
pub open spec fn lit(s: &str) -> Seq<u8> {
    encode_utf8(s@)
}

fn write_str(out: &mut Vec<u8>, s: &str)
    ensures
        final(out)@ == old(out)@ + encode_utf8(s@),
{
    append_bytes(out, s.as_bytes());
}

/// Appends the JSON string of the text of `b`.
fn write_json_text(out: &mut Vec<u8>, b: &[u8]) -> (r: Result<(), serde_json::Error>)
    ensures
        r is Ok,
        final(out)@ == old(out)@ + json_text(b@),
{
    let text = lossy_string(b);
    match json_quote(text.as_str()) {
        Ok(q) => {
            append_bytes(out, q.as_slice());
            Ok(())
        },
        Err(e) => Err(e),
    }
}

/// Appends the decimal digits of `v`.
fn write_decimal(out: &mut Vec<u8>, v: u64)
    ensures
        final(out)@ == old(out)@ + decimal(v as nat),
{
    let d = format_decimal(v);
    append_bytes(out, d.as_slice());
}

/// `true` or `false`.
pub open spec fn json_bool(b: bool) -> Seq<u8> {
    if b { lit("true") } else { lit("false") }
}

fn write_json_bool(out: &mut Vec<u8>, b: bool)
    ensures
        final(out)@ == old(out)@ + json_bool(b),
{
    if b {
        write_str(out, "true");
    } else {
        write_str(out, "false");
    }
}

/// The `"path":...,` member, present only when there is a path.
pub open spec fn json_path_member(path: Option<Seq<u8>>) -> Seq<u8> {
    match path {
        Some(p) => lit("\"path\":") + json_text(p) + lit(","),
        None => Seq::empty(),
    }
}

fn write_json_path_member(out: &mut Vec<u8>, path: Option<&[u8]>) -> (r: Result<(), serde_json::Error>)
    ensures
        r is Ok,
        final(out)@ == old(out)@ + json_path_member(opt_view(path)),
{
    match path {
        Some(p) => {
            let ghost start = out@;
            write_str(out, "\"path\":");
            write_json_text(out, p)?;
            write_str(out, ",");
            assert(out@ =~= start + json_path_member(opt_view(path)));
            Ok(())
        },
        None => {
            assert(out@ =~= old(out)@ + json_path_member(opt_view(path)));
            Ok(())
        },
    }
}

/// One submatch object: the matched text and its bounds.
pub open spec fn json_submatch(t: Seq<u8>, s: int, e: int) -> Seq<u8> {
    lit("{\"match\":{\"text\":") + json_text(t.subrange(s, e)) + lit("},\"start\":") + decimal(s as nat)
        + lit(",\"end\":") + decimal(e as nat) + lit("}")
}

/// The submatch objects of the ranges that start inside `t`, each cut at
/// the end of `t`.
pub open spec fn json_submatch_items(t: Seq<u8>, ranges: Seq<(int, int)>) -> Seq<Seq<u8>>
    decreases ranges.len(),
{
    if ranges.len() == 0 {
        Seq::empty()
    } else {
        let r = ranges.last();
        let e = if r.1 < t.len() { r.1 } else { t.len() as int };
        json_submatch_items(t, ranges.drop_last()) + if r.0 < t.len() {
            seq![json_submatch(t, r.0, e)]
        } else {
            Seq::empty()
        }
    }
}

/// Whether a match range starts inside `t`.
pub open spec fn starts_inside(t: Seq<u8>) -> spec_fn((int, int)) -> bool {
    |r: (int, int)| r.0 < t.len()
}

/// The submatch object for a range, its end cut at the end of `t`.
pub open spec fn submatch_of(t: Seq<u8>) -> spec_fn((int, int)) -> Seq<u8> {
    |r: (int, int)| json_submatch(t, r.0, if r.1 < t.len() { r.1 } else { t.len() as int })
}

/// Law: the submatches of a record are one object per match range that
/// starts inside the (cut) line, in the order of the ranges, each with its
/// end cut at the end of the line; so there are as many as such ranges.
pub proof fn lemma_submatch_items_per_range(t: Seq<u8>, ranges: Seq<(int, int)>)
    ensures
        json_submatch_items(t, ranges) == ranges.filter(starts_inside(t)).map_values(submatch_of(t)),
        json_submatch_items(t, ranges).len() == ranges.filter(starts_inside(t)).len(),
    decreases ranges.len(),
{
    reveal(Seq::filter);
    if ranges.len() > 0 {
        lemma_submatch_items_per_range(t, ranges.drop_last());
        let f = ranges.drop_last().filter(starts_inside(t));
        if starts_inside(t)(ranges.last()) {
            assert(ranges.filter(starts_inside(t)) == f.push(ranges.last()));
            assert(f.push(ranges.last()).map_values(submatch_of(t))
                =~= f.map_values(submatch_of(t)).push(submatch_of(t)(ranges.last())));
        } else {
            assert(ranges.filter(starts_inside(t)) == f);
        }
    } else {
        assert(ranges.filter(starts_inside(t)) =~= Seq::<(int, int)>::empty());
    }
}

/// Items separated by commas.
pub open spec fn join_commas(items: Seq<Seq<u8>>) -> Seq<u8>
    decreases items.len(),
{
    if items.len() == 0 {
        Seq::empty()
    } else if items.len() == 1 {
        items[0]
    } else {
        join_commas(items.drop_last()) + lit(",") + items.last()
    }
}

/// Every range that starts inside `t` ends no earlier than it starts.
pub open spec fn json_ranges_ok(t: Seq<u8>, ranges: Seq<(int, int)>) -> bool {
    forall|i: int| 0 <= i < ranges.len() && #[trigger] ranges[i].0 < t.len() ==> ranges[i].0 <= ranges[i].1
}

/// Appending an item to a comma-separated list.
pub proof fn lemma_join_commas_push(items: Seq<Seq<u8>>, x: Seq<u8>)
    ensures
        join_commas(items.push(x)) == if items.len() == 0 { x } else { join_commas(items) + lit(",") + x },
{
    assert(items.push(x).drop_last() == items);
    if items.len() == 0 {
        assert(items.push(x)[0] == x);
    }
}

/// Appends one submatch object, after a comma unless it is the first.
fn write_json_submatch(out: &mut Vec<u8>, line: &[u8], s: usize, e: usize, first: bool) -> (r: Result<(), serde_json::Error>)
    requires
        s <= e <= line@.len(),
    ensures
        r is Ok,
        final(out)@ == old(out)@ + (if first { Seq::empty() } else { lit(",") })
            + json_submatch(line@, s as int, e as int),
{
    let ghost start = out@;
    if !first {
        write_str(out, ",");
    }
    let ghost mid = out@;
    write_str(out, "{\"match\":{\"text\":");
    write_json_text(out, &line[s..e])?;
    write_str(out, "},\"start\":");
    write_decimal(out, s as u64);
    write_str(out, ",\"end\":");
    write_decimal(out, e as u64);
    write_str(out, "}");
    assert(out@ =~= mid + json_submatch(line@, s as int, e as int));
    Ok(())
}

/// Appends the submatch objects for `match_ranges` in `line`, separated by
/// commas.
fn write_json_submatches(out: &mut Vec<u8>, line: &[u8], match_ranges: &[core::ops::Range<usize>]) -> (r: Result<(), serde_json::Error>)
    requires
        json_ranges_ok(line@, crate::finder::ranges_view(match_ranges@)),
    ensures
        r is Ok,
        final(out)@ == old(out)@ + join_commas(json_submatch_items(line@, crate::finder::ranges_view(match_ranges@))),
{
    let ghost rv = crate::finder::ranges_view(match_ranges@);
    let ghost start = out@;
    let n = match_ranges.len();
    let mut first = true;
    for i in 0..n
        invariant
            n == match_ranges@.len(),
            rv == crate::finder::ranges_view(match_ranges@),
            json_ranges_ok(line@, rv),
            first == (json_submatch_items(line@, rv.take(i as int)).len() == 0),
            out@ == start + join_commas(json_submatch_items(line@, rv.take(i as int))),
    {
        let range = &match_ranges[i];
        let ghost prev = json_submatch_items(line@, rv.take(i as int));
        assert(rv.take(i + 1).drop_last() == rv.take(i as int));
        assert(rv.take(i + 1).last() == rv[i as int]);
        if range.start < line.len() {
            let end = if range.end < line.len() { range.end } else { line.len() };
            assert(rv[i as int].0 <= rv[i as int].1);
            write_json_submatch(out, line, range.start, end, first)?;
            proof {
                let x = json_submatch(line@, range.start as int, end as int);
                assert(json_submatch_items(line@, rv.take(i + 1)) == prev.push(x));
                lemma_join_commas_push(prev, x);
            }
            first = false;
        } else {
            assert(json_submatch_items(line@, rv.take(i + 1)) == prev);
        }
    }
    assert(rv.take(n as int) == rv);
    Ok(())
}

/// The JSON Lines record of a matching line (the line cut to `max_len`).
pub open spec fn json_match_record(
    path: Option<Seq<u8>>,
    line_no: nat,
    byte_off: nat,
    line: Seq<u8>,
    ranges: Seq<(int, int)>,
    max_len: nat,
) -> Seq<u8> {
    let (t, cut) = spec_truncate(line, max_len);
    lit("{\"type\":\"match\",") + json_path_member(path) + lit("\"line_number\":") + decimal(line_no)
        + lit(",\"absolute_offset\":") + decimal(byte_off) + lit(",\"lines\":{\"text\":") + json_text(t)
        + lit("},\"submatches\":[") + join_commas(json_submatch_items(t, ranges)) + lit("],\"truncated\":")
        + json_bool(cut) + lit("}\n")
}

/// Writes a matching line as a JSON Lines record.
pub fn write_json_match(
    out: &mut Vec<u8>,
    path_bytes: Option<&[u8]>,
    line_no: u32,
    byte_off: u64,
    line: &[u8],
    match_ranges: &[core::ops::Range<usize>],
    max_line_len: usize,
) -> (r: Result<(), serde_json::Error>)
    requires
        json_ranges_ok(spec_truncate(line@, max_line_len as nat).0, crate::finder::ranges_view(match_ranges@)),
    ensures
        r is Ok,
        final(out)@ == old(out)@ + json_match_record(opt_view(path_bytes), line_no as nat,
            byte_off as nat, line@, crate::finder::ranges_view(match_ranges@), max_line_len as nat),
{
    let ghost full = line@;
    let (line, truncated) = truncate_line(line, max_line_len);
    let mut rec: Vec<u8> = Vec::new();
    write_str(&mut rec, "{\"type\":\"match\",");
    write_json_path_member(&mut rec, path_bytes)?;
    write_str(&mut rec, "\"line_number\":");
    write_decimal(&mut rec, line_no as u64);
    write_str(&mut rec, ",\"absolute_offset\":");
    write_decimal(&mut rec, byte_off);
    write_str(&mut rec, ",\"lines\":{\"text\":");
    write_json_text(&mut rec, line)?;
    write_str(&mut rec, "},\"submatches\":[");
    write_json_submatches(&mut rec, line, match_ranges)?;
    write_str(&mut rec, "],\"truncated\":");
    write_json_bool(&mut rec, truncated);
    write_str(&mut rec, "}\n");
    assert(rec@ =~= json_match_record(opt_view(path_bytes), line_no as nat, byte_off as nat, full,
        crate::finder::ranges_view(match_ranges@), max_line_len as nat));
    append_bytes(out, rec.as_slice());
    Ok(())
}

/// The JSON Lines record of one `-o` match (the matched text cut to
/// `max_len`), whose only submatch is the whole text.
pub open spec fn json_only_matching_record(
    path: Option<Seq<u8>>,
    line_no: nat,
    byte_off: nat,
    matched: Seq<u8>,
    max_len: nat,
) -> Seq<u8> {
    let (t, cut) = spec_truncate(matched, max_len);
    lit("{\"type\":\"match\",") + json_path_member(path) + lit("\"line_number\":") + decimal(line_no)
        + lit(",\"absolute_offset\":") + decimal(byte_off) + lit(",\"lines\":{\"text\":") + json_text(t)
        + lit("},\"submatches\":[{\"match\":{\"text\":") + json_text(t) + lit("},\"start\":0,\"end\":")
        + decimal(t.len()) + lit("}],\"truncated\":") + json_bool(cut) + lit("}\n")
}

/// Writes one `-o` match as a JSON Lines record.
pub fn write_json_only_matching(
    out: &mut Vec<u8>,
    path_bytes: Option<&[u8]>,
    line_no: u32,
    byte_off: u64,
    matched: &[u8],
    max_line_len: usize,
) -> (r: Result<(), serde_json::Error>)
    ensures
        r is Ok,
        final(out)@ == old(out)@ + json_only_matching_record(opt_view(path_bytes), line_no as nat,
            byte_off as nat, matched@, max_line_len as nat),
{
    let ghost full = matched@;
    let (matched, truncated) = truncate_line(matched, max_line_len);
    let mut rec: Vec<u8> = Vec::new();
    write_str(&mut rec, "{\"type\":\"match\",");
    write_json_path_member(&mut rec, path_bytes)?;
    write_str(&mut rec, "\"line_number\":");
    write_decimal(&mut rec, line_no as u64);
    write_str(&mut rec, ",\"absolute_offset\":");
    write_decimal(&mut rec, byte_off);
    write_str(&mut rec, ",\"lines\":{\"text\":");
    write_json_text(&mut rec, matched)?;
    write_str(&mut rec, "},\"submatches\":[{\"match\":{\"text\":");
    write_json_text(&mut rec, matched)?;
    write_str(&mut rec, "},\"start\":0,\"end\":");
    write_decimal(&mut rec, matched.len() as u64);
    write_str(&mut rec, "}],\"truncated\":");
    write_json_bool(&mut rec, truncated);
    write_str(&mut rec, "}\n");
    assert(rec@ =~= json_only_matching_record(opt_view(path_bytes), line_no as nat, byte_off as nat, full,
        max_line_len as nat));
    append_bytes(out, rec.as_slice());
    Ok(())
}

/// The JSON Lines record of a context line (cut to `max_len`).
pub open spec fn json_context_record(
    path: Option<Seq<u8>>,
    line_no: nat,
    byte_off: nat,
    line: Seq<u8>,
    max_len: nat,
) -> Seq<u8> {
    let (t, cut) = spec_truncate(line, max_len);
    lit("{\"type\":\"context\",") + json_path_member(path) + lit("\"line_number\":") + decimal(line_no)
        + lit(",\"absolute_offset\":") + decimal(byte_off) + lit(",\"lines\":{\"text\":") + json_text(t)
        + lit("},\"truncated\":") + json_bool(cut) + lit("}\n")
}

/// Writes a context line as a JSON Lines record.
pub fn write_json_context(
    out: &mut Vec<u8>,
    path_bytes: Option<&[u8]>,
    line_no: u32,
    byte_off: u64,
    line: &[u8],
    max_line_len: usize,
) -> (r: Result<(), serde_json::Error>)
    ensures
        r is Ok,
        final(out)@ == old(out)@ + json_context_record(opt_view(path_bytes), line_no as nat,
            byte_off as nat, line@, max_line_len as nat),
{
    let ghost full = line@;
    let (line, truncated) = truncate_line(line, max_line_len);
    let mut rec: Vec<u8> = Vec::new();
    write_str(&mut rec, "{\"type\":\"context\",");
    write_json_path_member(&mut rec, path_bytes)?;
    write_str(&mut rec, "\"line_number\":");
    write_decimal(&mut rec, line_no as u64);
    write_str(&mut rec, ",\"absolute_offset\":");
    write_decimal(&mut rec, byte_off);
    write_str(&mut rec, ",\"lines\":{\"text\":");
    write_json_text(&mut rec, line)?;
    write_str(&mut rec, "},\"truncated\":");
    write_json_bool(&mut rec, truncated);
    write_str(&mut rec, "}\n");
    assert(rec@ =~= json_context_record(opt_view(path_bytes), line_no as nat, byte_off as nat, full,
        max_line_len as nat));
    append_bytes(out, rec.as_slice());
    Ok(())
}

/// The JSON Lines record for `-l`: the path and whether it matched.
pub open spec fn json_path_record(path: Seq<u8>, matched: bool) -> Seq<u8> {
    lit("{\"type\":\"path\",\"path\":") + json_text(path) + lit(",\"matched\":") + json_bool(matched) + lit("}\n")
}

/// Writes a path record.
pub fn write_json_path(out: &mut Vec<u8>, path: &[u8], matched: bool) -> (r: Result<(), serde_json::Error>)
    ensures
        r is Ok,
        final(out)@ == old(out)@ + json_path_record(path@, matched),
{
    let mut rec: Vec<u8> = Vec::new();
    write_str(&mut rec, "{\"type\":\"path\",\"path\":");
    write_json_text(&mut rec, path)?;
    write_str(&mut rec, ",\"matched\":");
    write_json_bool(&mut rec, matched);
    write_str(&mut rec, "}\n");
    assert(rec@ =~= json_path_record(path@, matched));
    append_bytes(out, rec.as_slice());
    Ok(())
}

/// The JSON Lines record for `-c`: the path, when there is one, and the count.
pub open spec fn json_summary_record(path: Option<Seq<u8>>, count: nat) -> Seq<u8> {
    lit("{\"type\":\"summary\",") + json_path_member(path) + lit("\"count\":") + decimal(count) + lit("}\n")
}

/// Writes a summary record.
pub fn write_json_summary(out: &mut Vec<u8>, path: Option<&[u8]>, count: usize) -> (r: Result<(), serde_json::Error>)
    ensures
        r is Ok,
        final(out)@ == old(out)@ + json_summary_record(opt_view(path), count as nat),
{
    let mut rec: Vec<u8> = Vec::new();
    write_str(&mut rec, "{\"type\":\"summary\",");
    write_json_path_member(&mut rec, path)?;
    write_str(&mut rec, "\"count\":");
    write_decimal(&mut rec, count as u64);
    write_str(&mut rec, "}\n");
    assert(rec@ =~= json_summary_record(opt_view(path), count as nat));
    append_bytes(out, rec.as_slice());
    Ok(())
}

/// The JSON Lines warning for a file skipped for its size.
pub open spec fn json_size_limit_record(path: Seq<u8>, size_bytes: nat, max_file_size: nat) -> Seq<u8> {
    lit("{\"type\":\"warning\",\"kind\":\"size_limit\",\"path\":") + json_text(path) + lit(",\"size_bytes\":")
        + decimal(size_bytes) + lit(",\"max_file_size\":") + decimal(max_file_size) + lit("}\n")
}

/// Writes a size-limit warning record.
pub fn write_json_size_limit_warning(
    out: &mut Vec<u8>,
    path: &[u8],
    size_bytes: u64,
    max_file_size: u64,
) -> (r: Result<(), serde_json::Error>)
    ensures
        r is Ok,
        final(out)@ == old(out)@ + json_size_limit_record(path@, size_bytes as nat, max_file_size as nat),
{
    let mut rec: Vec<u8> = Vec::new();
    write_str(&mut rec, "{\"type\":\"warning\",\"kind\":\"size_limit\",\"path\":");
    write_json_text(&mut rec, path)?;
    write_str(&mut rec, ",\"size_bytes\":");
    write_decimal(&mut rec, size_bytes);
    write_str(&mut rec, ",\"max_file_size\":");
    write_decimal(&mut rec, max_file_size);
    write_str(&mut rec, "}\n");
    assert(rec@ =~= json_size_limit_record(path@, size_bytes as nat, max_file_size as nat));
    append_bytes(out, rec.as_slice());
    Ok(())
}

/// What [`write_line_match`] writes for a matching line, or `None` when its
/// ranges cannot be sliced in order.
pub open spec fn line_match_output(
    c: OutputConfig,
    path: Option<Seq<u8>>,
    line_no: nat,
    byte_off: nat,
    line: Seq<u8>,
    ranges: Seq<(int, int)>,
    width: nat,
) -> Option<Seq<u8>> {
    if c.spec_is_json() {
        if json_ranges_ok(spec_truncate(line, c.max_line_len as nat).0, ranges) {
            Some(json_match_record(path, line_no, byte_off, line, ranges, c.max_line_len as nat))
        } else {
            None
        }
    } else {
        text_match_line(c, path, line_no, byte_off, line, ranges, width)
    }
}

/// Writes a single matching line with optional file name prefix, line
/// number, byte offset and match highlighting, or its JSON record.
pub fn write_line_match(
    out: &mut Vec<u8>,
    config: &OutputConfig,
    path_bytes: Option<&[u8]>,
    line_no: u32,
    byte_off: u64,
    line: &[u8],
    match_ranges: &[core::ops::Range<usize>],
    number_width: usize,
) -> (r: Result<(), serde_json::Error>)
    requires
        line_match_output(*config, opt_view(path_bytes), line_no as nat, byte_off as nat, line@,
            crate::finder::ranges_view(match_ranges@), number_width as nat) is Some,
    ensures
        r is Ok ==> final(out)@ == old(out)@ + line_match_output(*config, opt_view(path_bytes), line_no as nat,
            byte_off as nat, line@, crate::finder::ranges_view(match_ranges@), number_width as nat).unwrap(),
        r is Ok,
{
    if config.is_json() {
        return write_json_match(out, path_bytes, line_no, byte_off, line, match_ranges, config.max_line_len);
    }
    write_text_line_match(out, config, path_bytes, line_no, byte_off, line, match_ranges, number_width);
    Ok(())
}

/// The group separator line between non-contiguous context groups: nothing
/// in JSON mode or without a separator.
pub open spec fn group_separator_output(c: OutputConfig) -> Seq<u8> {
    if c.spec_is_json() {
        Seq::empty()
    } else {
        match c.group_separator {
            None => Seq::empty(),
            Some(sep) => (if c.color {
                color_sep() + encode_utf8(sep@) + color_reset()
            } else {
                encode_utf8(sep@)
            }) + seq![10u8],
        }
    }
}

/// Writes the group separator between non-contiguous context groups.
/// Respects `--group-separator` and `--no-group-separator`.
pub fn write_group_separator(out: &mut Vec<u8>, config: &OutputConfig)
    ensures
        final(out)@ == old(out)@ + group_separator_output(*config),
{
    if config.is_json() {
        assert(out@ == old(out)@ + Seq::<u8>::empty());
        return;
    }
    match &config.group_separator {
        None => {
            assert(out@ == old(out)@ + Seq::<u8>::empty());
        },
        Some(sep) => {
            let ghost start = out@;
            if config.color {
                write_color_sep(out);
                append_bytes(out, sep.as_str().as_bytes());
                write_color_reset(out);
            } else {
                append_bytes(out, sep.as_str().as_bytes());
            }
            out.push(10u8);
            assert(out@ =~= start + group_separator_output(*config));
        },
    }
}

/// A context line as text: `-` separators, no highlighting.
pub open spec fn text_context_line(
    c: OutputConfig,
    path: Option<Seq<u8>>,
    line_no: nat,
    byte_off: nat,
    line: Seq<u8>,
    width: nat,
) -> Seq<u8> {
    let (t, cut) = spec_truncate(line, c.max_line_len as nat);
    path_prefix(c, path, 45u8) + number_fields(c, line_no, byte_off, 45u8, width) + t
        + (if cut { truncation_note() } else { Seq::empty() }) + seq![10u8]
}

/// What [`write_context_line`] writes.
pub open spec fn context_line_output(
    c: OutputConfig,
    path: Option<Seq<u8>>,
    line_no: nat,
    byte_off: nat,
    line: Seq<u8>,
    width: nat,
) -> Seq<u8> {
    if c.spec_is_json() {
        json_context_record(path, line_no, byte_off, line, c.max_line_len as nat)
    } else {
        text_context_line(c, path, line_no, byte_off, line, width)
    }
}

/// Writes a context (non-matching) line, with `-` as separator.
pub fn write_context_line(
    out: &mut Vec<u8>,
    config: &OutputConfig,
    path_bytes: Option<&[u8]>,
    line_no: u32,
    byte_off: u64,
    line: &[u8],
    number_width: usize,
) -> (r: Result<(), serde_json::Error>)
    ensures
        r is Ok ==> final(out)@ == old(out)@ + context_line_output(*config, opt_view(path_bytes), line_no as nat,
            byte_off as nat, line@, number_width as nat),
        r is Ok,
{
    if config.is_json() {
        return write_json_context(out, path_bytes, line_no, byte_off, line, config.max_line_len);
    }
    write_text_context_line(out, config, path_bytes, line_no, byte_off, line, number_width);
    Ok(())
}

#[verifier::rlimit(30)]
fn write_text_context_line(
    out: &mut Vec<u8>,
    config: &OutputConfig,
    path_bytes: Option<&[u8]>,
    line_no: u32,
    byte_off: u64,
    line: &[u8],
    number_width: usize,
)
    ensures
        final(out)@ == old(out)@ + text_context_line(*config, opt_view(path_bytes), line_no as nat,
            byte_off as nat, line@, number_width as nat),
{
    let ghost start = out@;
    write_path_prefix(out, config, path_bytes, 45u8);
    write_number_fields(out, config, line_no as u64, byte_off, 45u8, number_width);
    let ghost full = line@;
    let (line, truncated) = truncate_line(line, config.max_line_len);
    append_bytes(out, line);
    if truncated {
        write_truncation_note(out);
    }
    out.push(10u8);
    assert(out@ =~= start + text_context_line(*config, opt_view(path_bytes), line_no as nat, byte_off as nat,
        full, number_width as nat));
}

/// One `-o` match as text.
pub open spec fn text_only_match(
    c: OutputConfig,
    path: Option<Seq<u8>>,
    line_no: nat,
    byte_off: nat,
    matched: Seq<u8>,
    width: nat,
) -> Seq<u8> {
    path_prefix(c, path, 58u8) + number_fields(c, line_no, byte_off, 58u8, width)
        + match_text(c, matched) + seq![10u8]
}

/// What `-o` writes for the ranges of a line from the `i`-th on, and how
/// many parts: each range that starts inside the line, up to the first that
/// does not, cut at the line end. `None` when a range ends before it starts
/// or, in JSON mode, when its absolute offset does not fit in 64 bits.
pub open spec fn only_matching_from(
    c: OutputConfig,
    path: Option<Seq<u8>>,
    line_no: nat,
    byte_off: nat,
    line: Seq<u8>,
    ranges: Seq<(int, int)>,
    width: nat,
    i: int,
) -> Option<(Seq<u8>, nat)>
    decreases ranges.len() - i,
{
    if i < 0 || i >= ranges.len() || ranges[i].0 >= line.len() {
        Some((Seq::empty(), 0nat))
    } else {
        let s = ranges[i].0;
        let e = if ranges[i].1 < line.len() { ranges[i].1 } else { line.len() as int };
        if s > e || s < 0 || (c.spec_is_json() && byte_off + s > u64::MAX) {
            None
        } else {
            let item = if c.spec_is_json() {
                json_only_matching_record(path, line_no, (byte_off + s) as nat, line.subrange(s, e), c.max_line_len as nat)
            } else {
                text_only_match(c, path, line_no, byte_off, line.subrange(s, e), width)
            };
            match only_matching_from(c, path, line_no, byte_off, line, ranges, width, i + 1) {
                Some((rest, k)) => Some((item + rest, k + 1)),
                None => None,
            }
        }
    }
}

/// The text output of `-o` for the ranges `a` to `b` of a line: one line per
/// range, with the range's text cut at the line end.
pub open spec fn only_matching_text_parts(
    c: OutputConfig,
    path: Option<Seq<u8>>,
    line_no: nat,
    byte_off: nat,
    line: Seq<u8>,
    ranges: Seq<(int, int)>,
    width: nat,
    a: int,
    b: int,
) -> Seq<u8>
    decreases b - a,
{
    if a >= b {
        Seq::empty()
    } else {
        let e = if ranges[a].1 < line.len() { ranges[a].1 } else { line.len() as int };
        text_only_match(c, path, line_no, byte_off, line.subrange(ranges[a].0, e), width)
            + only_matching_text_parts(c, path, line_no, byte_off, line, ranges, width, a + 1, b)
    }
}

/// Law: `-o` writes one part per match range, from the first on, as long as
/// the ranges start inside the line: the number of parts is the number of
/// leading ranges that start before the line's end (it stops at the first
/// range that does not), and in text mode the output is one line per such
/// range holding the range's text.
pub proof fn lemma_only_matching_parts(
    c: OutputConfig,
    path: Option<Seq<u8>>,
    line_no: nat,
    byte_off: nat,
    line: Seq<u8>,
    ranges: Seq<(int, int)>,
    width: nat,
    i: int,
)
    requires
        0 <= i <= ranges.len(),
    ensures
        only_matching_from(c, path, line_no, byte_off, line, ranges, width, i) matches Some((bytes, k)) ==> {
            &&& i + k <= ranges.len()
            &&& forall|j: int| i <= j < i + k ==> #[trigger] ranges[j].0 < line.len()
            &&& i + k < ranges.len() ==> ranges[i + k].0 >= line.len()
            &&& !c.spec_is_json() ==> bytes == only_matching_text_parts(c, path, line_no, byte_off, line,
                ranges, width, i, i + k)
        },
    decreases ranges.len() - i,
{
    if i < ranges.len() && ranges[i].0 < line.len() {
        lemma_only_matching_parts(c, path, line_no, byte_off, line, ranges, width, i + 1);
    }
}

/// The matched text, coloured when colour is on.
pub open spec fn match_text(c: OutputConfig, matched: Seq<u8>) -> Seq<u8> {
    if c.color { color_match() + matched + color_reset() } else { matched }
}

fn write_match_text(out: &mut Vec<u8>, config: &OutputConfig, matched: &[u8])
    ensures
        final(out)@ == old(out)@ + match_text(*config, matched@),
{
    let ghost start = out@;
    if config.color {
        write_color_match(out);
        append_bytes(out, matched);
        write_color_reset(out);
        assert(out@ =~= start + match_text(*config, matched@));
    } else {
        append_bytes(out, matched);
    }
}

/// Writes one `-o` match as text.
#[verifier::spinoff_prover]
fn write_text_only_match(
    out: &mut Vec<u8>,
    config: &OutputConfig,
    path_bytes: Option<&[u8]>,
    line_no: u32,
    byte_off: u64,
    matched: &[u8],
    number_width: usize,
)
    ensures
        final(out)@ == old(out)@ + text_only_match(*config, opt_view(path_bytes), line_no as nat, byte_off as nat,
            matched@, number_width as nat),
{
    let ghost start = out@;
    write_path_prefix(out, config, path_bytes, 58u8);
    write_number_fields(out, config, line_no as u64, byte_off, 58u8, number_width);
    write_match_text(out, config, matched);
    out.push(10u8);
    assert(out@ =~= start + text_only_match(*config, opt_view(path_bytes), line_no as nat, byte_off as nat,
        matched@, number_width as nat));
}

/// Writes only the matched parts of a line, each on its own line (or as its
/// own JSON record). Returns the number of parts written.
pub fn write_only_matching(
    out: &mut Vec<u8>,
    config: &OutputConfig,
    path_bytes: Option<&[u8]>,
    line_no: u32,
    byte_off: u64,
    line: &[u8],
    match_ranges: &[core::ops::Range<usize>],
    number_width: usize,
) -> (r: Result<usize, serde_json::Error>)
    requires
        only_matching_from(*config, opt_view(path_bytes), line_no as nat, byte_off as nat, line@,
            crate::finder::ranges_view(match_ranges@), number_width as nat, 0) is Some,
    ensures
        r matches Ok(k) ==> {
            let (bytes, parts) = only_matching_from(*config, opt_view(path_bytes), line_no as nat, byte_off as nat,
                line@, crate::finder::ranges_view(match_ranges@), number_width as nat, 0).unwrap();
            final(out)@ == old(out)@ + bytes && k == parts
        },
        r is Ok,
{
    let ghost rv = crate::finder::ranges_view(match_ranges@);
    let ghost po = opt_view(path_bytes);
    let ghost total = only_matching_from(*config, po, line_no as nat, byte_off as nat, line@, rv, number_width as nat, 0).unwrap();
    let ghost start = out@;
    let n = match_ranges.len();
    let mut count: usize = 0;
    let mut i: usize = 0;
    while i < n
        invariant_except_break
            i <= n,
            count <= i,
            only_matching_from(*config, po, line_no as nat, byte_off as nat, line@, rv, number_width as nat, i as int) is Some,
            ({
                let (rest, k) = only_matching_from(*config, po, line_no as nat, byte_off as nat, line@, rv,
                    number_width as nat, i as int).unwrap();
                start + total.0 == out@ + rest && total.1 == count + k
            }),
        invariant
            n == match_ranges@.len(),
            rv == crate::finder::ranges_view(match_ranges@),
            po == opt_view(path_bytes),
            total == only_matching_from(*config, po, line_no as nat, byte_off as nat, line@, rv, number_width as nat, 0).unwrap(),
        ensures
            start + total.0 == out@ && total.1 == count,
        decreases n - i,
    {
        let range = &match_ranges[i];
        if range.start >= line.len() {
            assert(out@ + Seq::<u8>::empty() == out@);
            break;
        }
        let end = if range.end < line.len() { range.end } else { line.len() };
        let matched = &line[range.start..end];
        let ghost before = out@;
        if config.is_json() {
            let w = write_json_only_matching(out, path_bytes, line_no, byte_off + range.start as u64, matched,
                config.max_line_len);
            match w {
                Ok(()) => {},
                Err(e) => { return Err(e); },
            }
        } else {
            write_text_only_match(out, config, path_bytes, line_no, byte_off, matched, number_width);
        }
        count = count + 1;
        i = i + 1;
        proof {
            let (rest, k) = only_matching_from(*config, po, line_no as nat, byte_off as nat, line@, rv,
                number_width as nat, i as int).unwrap();
            assert(out@ + rest == before + (out@.subrange(before.len() as int, out@.len() as int) + rest));
        }
    }
    Ok(count)
}

/// What a file's result asks of the caller besides the written bytes.
#[derive(Debug, Clone, Copy, PartialEq, Eq, Structural)]
pub enum FormatOutcome {
    /// Everything was written to the output.
    Written,
    /// The file is binary and matched: GNU grep reports this on stderr
    /// instead of printing lines.
    BinaryFileMatches,
}

/// What is written for one match: its line, or with `-o` its parts.
pub open spec fn entry_output(c: OutputConfig, path: Option<Seq<u8>>, m: LineMatchView, width: nat) -> Option<Seq<u8>> {
    if c.only_matching {
        match only_matching_from(c, path, m.line_no as nat, m.byte_offset as nat, m.line, m.match_ranges, width, 0) {
            Some(p) => Some(p.0),
            None => None,
        }
    } else {
        line_match_output(c, path, m.line_no as nat, m.byte_offset as nat, m.line, m.match_ranges, width)
    }
}

/// What is written for a list of matches, one after the other.
pub open spec fn entries_output(c: OutputConfig, path: Option<Seq<u8>>, ms: Seq<LineMatchView>, width: nat) -> Option<Seq<u8>>
    decreases ms.len(),
{
    if ms.len() == 0 {
        Some(Seq::empty())
    } else {
        match (entries_output(c, path, ms.drop_last(), width), entry_output(c, path, ms.last(), width)) {
            (Some(a), Some(b)) => Some(a + b),
            _ => None,
        }
    }
}

/// Writes the output for one match.
fn write_entry(out: &mut Vec<u8>, config: &OutputConfig, path_opt: Option<&[u8]>, m: &LineMatch, number_width: usize)
    -> (r: Result<(), serde_json::Error>)
    requires
        entry_output(*config, opt_view(path_opt), m@, number_width as nat) is Some,
    ensures
        r is Ok ==> final(out)@ == old(out)@ + entry_output(*config, opt_view(path_opt), m@, number_width as nat).unwrap(),
        r is Ok,
{
    if config.only_matching {
        write_only_matching(out, config, path_opt, m.line_no, m.byte_offset, m.line.as_slice(),
            m.match_ranges.as_slice(), number_width)?;
    } else {
        write_line_match(out, config, path_opt, m.line_no, m.byte_offset, m.line.as_slice(),
            m.match_ranges.as_slice(), number_width)?;
    }
    Ok(())
}

/// The number of matches `-c` reports: capped by `-m` when it is set.
pub open spec fn capped_count(n: nat, max_count: nat) -> nat {
    if max_count > 0 && n > max_count { max_count } else { n }
}

/// What `-l` writes: the file name when something matched.
pub open spec fn names_output(c: OutputConfig, path: Seq<u8>, ms: Seq<LineMatchView>) -> Seq<u8> {
    if ms.len() == 0 {
        Seq::empty()
    } else if c.spec_is_json() {
        json_path_record(path, true)
    } else {
        filename_text(c, path) + (if c.null { seq![0u8] } else { seq![10u8] })
    }
}

/// What `-c` writes: the (capped) number of matches, after the file name in
/// multi-file mode.
pub open spec fn count_output(c: OutputConfig, path: Seq<u8>, ms: Seq<LineMatchView>) -> Seq<u8> {
    let n = capped_count(ms.len(), c.max_count as nat);
    if c.spec_is_json() {
        json_summary_record(if path.len() > 0 { Some(path) } else { None }, n)
    } else {
        (if c.multi_file { filename_text(c, path) + filename_sep(c, 58u8) } else { Seq::empty() })
            + decimal(n) + seq![10u8]
    }
}

/// The path shown before each line: always in JSON, in multi-file mode otherwise.
pub open spec fn shown_path(c: OutputConfig, path: Seq<u8>) -> Option<Seq<u8>> {
    if c.spec_is_json() || c.multi_file { Some(path) } else { None }
}

/// What [`format_result`] writes for a file's result and what it asks of the
/// caller; `None` when some match's ranges cannot be written.
pub open spec fn format_output(
    c: OutputConfig,
    path: Seq<u8>,
    ms: Seq<LineMatchView>,
    is_binary: bool,
    width: nat,
) -> Option<(Seq<u8>, FormatOutcome)> {
    if c.files_with_matches {
        Some((names_output(c, path, ms), FormatOutcome::Written))
    } else if is_binary && !c.text && ms.len() > 0 {
        Some((Seq::empty(), FormatOutcome::BinaryFileMatches))
    } else if c.count {
        Some((count_output(c, path, ms), FormatOutcome::Written))
    } else {
        match entries_output(c, shown_path(c, path), ms.take(capped_count(ms.len(), c.max_count as nat) as int), width) {
            Some(b) => Some((b, FormatOutcome::Written)),
            None => None,
        }
    }
}

pub(crate) fn write_names(out: &mut Vec<u8>, config: &OutputConfig, path_bytes: &[u8], n: usize) -> (r: Result<(), serde_json::Error>)
    ensures
        r is Ok ==> forall|ms: Seq<LineMatchView>| ms.len() == n ==> final(out)@ == old(out)@ + #[trigger] names_output(*config, path_bytes@, ms),
        r is Ok,
{
    if n > 0 {
        if config.is_json() {
            write_json_path(out, path_bytes, true)?;
            return Ok(());
        }
        let ghost start = out@;
        write_filename(out, config, path_bytes);
        if config.null {
            out.push(0u8);
        } else {
            out.push(10u8);
        }
        assert(out@ =~= start + filename_text(*config, path_bytes@)
            + (if config.null { seq![0u8] } else { seq![10u8] }));
    } else {
        assert(out@ == old(out)@ + Seq::<u8>::empty());
    }
    Ok(())
}

pub(crate) fn write_count(out: &mut Vec<u8>, config: &OutputConfig, path_bytes: &[u8], n: usize) -> (r: Result<(), serde_json::Error>)
    ensures
        r is Ok ==> forall|ms: Seq<LineMatchView>| ms.len() == n ==> final(out)@ == old(out)@ + #[trigger] count_output(*config, path_bytes@, ms),
        r is Ok,
{
    let cap = if config.max_count > 0 && n > config.max_count { config.max_count } else { n };
    if config.is_json() {
        let json_path = if path_bytes.len() > 0 { Some(path_bytes) } else { None };
        write_json_summary(out, json_path, cap)?;
        return Ok(());
    }
    let ghost start = out@;
    if config.multi_file {
        write_filename(out, config, path_bytes);
        write_filename_sep(out, config, 58u8);
    }
    write_decimal(out, cap as u64);
    out.push(10u8);
    assert(out@ =~= start + (if config.multi_file {
        filename_text(*config, path_bytes@) + filename_sep(*config, 58u8)
    } else {
        Seq::empty()
    }) + decimal(cap as nat) + seq![10u8]);
    Ok(())
}

fn write_entries(out: &mut Vec<u8>, config: &OutputConfig, path_opt: Option<&[u8]>, ms: &[LineMatch], cap: usize, number_width: usize)
    -> (r: Result<(), serde_json::Error>)
    requires
        cap <= ms@.len(),
        entries_output(*config, opt_view(path_opt), matches_view(ms@).take(cap as int), number_width as nat) is Some,
    ensures
        r is Ok ==> final(out)@ == old(out)@ + entries_output(*config, opt_view(path_opt), matches_view(ms@).take(cap as int), number_width as nat).unwrap(),
        r is Ok,
{
    let ghost po = opt_view(path_opt);
    let ghost start = out@;
    let ghost shown = matches_view(ms@).take(cap as int);
    assert(shown.take(0) == Seq::<LineMatchView>::empty());
    for i in 0..cap
        invariant
            cap <= ms@.len(),
            shown == matches_view(ms@).take(cap as int),
            po == opt_view(path_opt),
            entries_output(*config, po, shown, number_width as nat) is Some,
            entries_output(*config, po, shown.take(i as int), number_width as nat) is Some,
            out@ == start + entries_output(*config, po, shown.take(i as int), number_width as nat).unwrap(),
    {
        let m = &ms[i];
        proof {
            assert(shown.take(i + 1).drop_last() == shown.take(i as int));
            assert(shown.take(i + 1).last() == m@);
            lemma_prefix_output(*config, po, shown, number_width as nat, i + 1);
        }
        write_entry(out, config, path_opt, m, number_width)?;
    }
    assert(shown.take(cap as int) == shown);
    Ok(())
}

/// Writes a single file's search results, in the format of GNU grep:
/// with `-l` only the file name when something matched; with `-c` the count
/// of matching lines (prefixed by the file name in multi-file mode);
/// otherwise each matching line, optionally prefixed with the file name and
/// line number, or with `-o` each matched part. Colour codes are those of
/// GNU grep. A binary file that matched is not written: the result says so
/// and the caller reports it on stderr.
pub fn format_result(
    result: &FileResult,
    config: &OutputConfig,
    out: &mut Vec<u8>,
    number_width: usize,
) -> (r: Result<FormatOutcome, serde_json::Error>)
    requires
        format_output(*config, result.path@, matches_view(result.matches@), result.is_binary, number_width as nat) is Some,
    ensures
        r matches Ok(o) ==> {
            let (bytes, outcome) = format_output(*config, result.path@, matches_view(result.matches@),
                result.is_binary, number_width as nat).unwrap();
            final(out)@ == old(out)@ + bytes && o == outcome
        },
        r is Ok,
{
    let path_bytes = result.path.as_slice();
    let n = result.matches.len();
    if config.files_with_matches {
        write_names(out, config, path_bytes, n)?;
        return Ok(FormatOutcome::Written);
    }
    if result.is_binary && !config.text && n > 0 {
        assert(out@ == old(out)@ + Seq::<u8>::empty());
        return Ok(FormatOutcome::BinaryFileMatches);
    }
    if config.count {
        write_count(out, config, path_bytes, n)?;
        return Ok(FormatOutcome::Written);
    }
    let cap = if config.max_count > 0 && n > config.max_count { config.max_count } else { n };
    let path_opt = if config.is_json() || config.multi_file { Some(path_bytes) } else { None };
    write_entries(out, config, path_opt, result.matches.as_slice(), cap, number_width)?;
    Ok(FormatOutcome::Written)
}

/// A prefix of a writable list of matches is writable.
pub proof fn lemma_prefix_output(c: OutputConfig, path: Option<Seq<u8>>, ms: Seq<LineMatchView>, width: nat, k: int)
    requires
        0 <= k <= ms.len(),
        entries_output(c, path, ms, width) is Some,
    ensures
        entries_output(c, path, ms.take(k), width) is Some,
    decreases ms.len() - k,
{
    if k < ms.len() {
        assert(ms.drop_last().take(k) == ms.take(k));
        lemma_prefix_output(c, path, ms.drop_last(), width, k);
    } else {
        assert(ms.take(k) == ms);
    }
}

/// Ordered ranges can be highlighted in any prefix of their line.
pub proof fn lemma_highlight_some(t: Seq<u8>, rs: Seq<(int, int)>, len: int, i: int, last_end: int)
    requires
        ordered_ranges(rs, len),
        0 <= i,
        0 <= last_end <= t.len(),
        i < rs.len() ==> last_end <= rs[i].0,
    ensures
        highlight_from(t, rs, i, last_end) is Some,
    decreases rs.len() - i,
{
    if i < rs.len() && rs[i].0 < t.len() {
        let e = if rs[i].1 < t.len() { rs[i].1 } else { t.len() as int };
        if i + 1 < rs.len() {
            assert(rs[i].1 <= rs[i + 1].0);
        }
        lemma_highlight_some(t, rs, len, i + 1, e);
    }
}

/// `-o` output of ordered ranges is defined when the line's end offset fits.
pub proof fn lemma_only_matching_some(
    c: OutputConfig,
    path: Option<Seq<u8>>,
    line_no: nat,
    byte_off: nat,
    line: Seq<u8>,
    rs: Seq<(int, int)>,
    width: nat,
    i: int,
)
    requires
        ordered_ranges(rs, line.len() as int),
        byte_off + line.len() <= u64::MAX,
        0 <= i,
    ensures
        only_matching_from(c, path, line_no, byte_off, line, rs, width, i) is Some,
    decreases rs.len() - i,
{
    if i < rs.len() && rs[i].0 < line.len() {
        lemma_only_matching_some(c, path, line_no, byte_off, line, rs, width, i + 1);
    }
}

pub proof fn lemma_cut_back(line: Seq<u8>, end: int)
    requires
        0 <= end,
    ensures
        0 <= cut_back(line, end) <= end,
    decreases end,
{
    if end > 0 && end < line.len() && is_continuation(line[end]) {
        lemma_cut_back(line, end - 1);
    }
}

/// The truncated line is a prefix of the line.
pub proof fn lemma_truncate_prefix(line: Seq<u8>, max_len: nat)
    ensures
        spec_truncate(line, max_len).0.len() <= line.len(),
{
    if !(max_len == 0 || line.len() <= max_len) {
        lemma_cut_back(line, max_len as int);
    }
}

/// Every writable match has a defined output.
pub proof fn lemma_entry_some(c: OutputConfig, path: Option<Seq<u8>>, m: LineMatchView, width: nat)
    requires
        writable(m),
    ensures
        entry_output(c, path, m, width) is Some,
{
    let t = spec_truncate(m.line, c.max_line_len as nat).0;
    lemma_truncate_prefix(m.line, c.max_line_len as nat);
    lemma_highlight_some(t, m.match_ranges, m.line.len() as int, 0, 0);
    lemma_only_matching_some(c, path, m.line_no as nat, m.byte_offset as nat, m.line, m.match_ranges, width, 0);
    assert(json_ranges_ok(t, m.match_ranges));
}

/// Lists of writable matches have a defined output.
pub proof fn lemma_entries_some(c: OutputConfig, path: Option<Seq<u8>>, ms: Seq<LineMatchView>, width: nat)
    requires
        all_writable(ms),
    ensures
        entries_output(c, path, ms, width) is Some,
    decreases ms.len(),
{
    if ms.len() > 0 {
        assert(writable(ms[ms.len() - 1]));
        lemma_entry_some(c, path, ms.last(), width);
        assert(all_writable(ms.drop_last())) by {
            assert forall|i: int| 0 <= i < ms.drop_last().len() implies writable(#[trigger] ms.drop_last()[i]) by {
                assert(ms.drop_last()[i] == ms[i]);
            }
        }
        lemma_entries_some(c, path, ms.drop_last(), width);
    }
}

/// A file result whose matches are all writable can always be formatted.
pub proof fn lemma_format_some(c: OutputConfig, path: Seq<u8>, ms: Seq<LineMatchView>, is_binary: bool, width: nat)
    requires
        all_writable(ms),
    ensures
        format_output(c, path, ms, is_binary, width) is Some,
{
    let k = capped_count(ms.len(), c.max_count as nat) as int;
    assert(all_writable(ms.take(k))) by {
        assert forall|i: int| 0 <= i < ms.take(k).len() implies writable(#[trigger] ms.take(k)[i]) by {
            assert(ms.take(k)[i] == ms[i]);
        }
    }
    lemma_entries_some(c, shown_path(c, path), ms.take(k), width);
}

/// What [`write_line_match`] writes for each match of a list, one after the
/// other (no `-o`).
pub open spec fn matched_lines_output(c: OutputConfig, path: Option<Seq<u8>>, ms: Seq<LineMatchView>, width: nat) -> Option<Seq<u8>>
    decreases ms.len(),
{
    if ms.len() == 0 {
        Some(Seq::empty())
    } else {
        let m = ms.last();
        match (matched_lines_output(c, path, ms.drop_last(), width),
            line_match_output(c, path, m.line_no as nat, m.byte_offset as nat, m.line, m.match_ranges, width)) {
            (Some(a), Some(b)) => Some(a + b),
            _ => None,
        }
    }
}

/// Writable matches always have a defined line output.
pub proof fn lemma_matched_lines_some(c: OutputConfig, path: Option<Seq<u8>>, ms: Seq<LineMatchView>, width: nat)
    requires
        all_writable(ms),
    ensures
        matched_lines_output(c, path, ms, width) is Some,
    decreases ms.len(),
{
    if ms.len() > 0 {
        let m = ms.last();
        assert(writable(ms[ms.len() - 1]));
        let cc = OutputConfig { only_matching: false, ..c };
        lemma_entry_some(cc, path, m, width);
        assert(all_writable(ms.drop_last())) by {
            assert forall|i: int| 0 <= i < ms.drop_last().len() implies writable(#[trigger] ms.drop_last()[i]) by {
                assert(ms.drop_last()[i] == ms[i]);
            }
        }
        lemma_matched_lines_some(c, path, ms.drop_last(), width);
    }
}

/// Writes each match with [`write_line_match`]; returns how many were written.
pub fn write_line_matches(
    out: &mut Vec<u8>,
    config: &OutputConfig,
    path_bytes: Option<&[u8]>,
    ms: &[LineMatch],
    number_width: usize,
) -> (r: Result<usize, serde_json::Error>)
    requires
        all_writable(matches_view(ms@)),
    ensures
        r matches Ok(k) ==> k == ms@.len() && final(out)@ == old(out)@
            + matched_lines_output(*config, opt_view(path_bytes), matches_view(ms@), number_width as nat).unwrap(),
        r is Ok,
{
    let ghost all = matches_view(ms@);
    let ghost po = opt_view(path_bytes);
    let ghost start = out@;
    let n = ms.len();
    assert(all.take(0) == Seq::<LineMatchView>::empty());
    let mut i: usize = 0;
    while i < n
        invariant
            n == ms@.len(),
            i <= n,
            all == matches_view(ms@),
            po == opt_view(path_bytes),
            all_writable(all),
            matched_lines_output(*config, po, all.take(i as int), number_width as nat) is Some,
            out@ == start + matched_lines_output(*config, po, all.take(i as int), number_width as nat).unwrap(),
        decreases n - i,
    {
        let m = &ms[i];
        proof {
            assert(all.take(i + 1).drop_last() == all.take(i as int));
            assert(all.take(i + 1).last() == m@);
            assert(writable(all[i as int]));
            let cc = OutputConfig { only_matching: false, ..*config };
            lemma_entry_some(cc, po, m@, number_width as nat);
        }
        let res = write_line_match(out, config, path_bytes, m.line_no, m.byte_offset, m.line.as_slice(),
            m.match_ranges.as_slice(), number_width);
        if let Err(e) = res {
            return Err(e);
        }
        i = i + 1;
    }
    assert(all.take(n as int) == all);
    Ok(n)
}

} // verus!
