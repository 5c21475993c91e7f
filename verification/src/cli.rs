//! Command-line options and their resolution into a search configuration.
//!
//! Paths are carried as the bytes of their platform encoding.

use crate::text::chars_of;
use crate::text::string_from_chars;
use crate::pattern::string_views;
use vstd::prelude::*;
use vstd::utf8::encode_utf8;

verus! {

/// Controls when colored output is used.
#[derive(Debug, Clone, Copy, PartialEq, Eq, Structural)]
pub enum ColorMode {
    Auto,
    Always,
    Never,
}

/// Controls how matches are emitted.
#[derive(Debug, Clone, Copy, PartialEq, Eq, Structural)]
pub enum OutputMode {
    Text,
    Json,
}

/// Fully resolved configuration derived from [`Cli`] arguments.
pub struct ResolvedConfig {
    pub patterns: Vec<String>,
    pub paths: Vec<Vec<u8>>,
    pub recursive: bool,
    pub ignore_case: bool,
    pub line_number: bool,
    pub files_with_matches: bool,
    pub files_without_match: bool,
    pub count: bool,
    pub quiet: bool,
    pub max_count: usize,
    pub invert_match: bool,
    pub word_regexp: bool,
    pub line_regexp: bool,
    pub fixed_strings: bool,
    pub only_matching: bool,
    pub after_context: usize,
    pub before_context: usize,
    pub color: bool,
    pub include_globs: Vec<String>,
    pub exclude: Vec<String>,
    pub exclude_dir: Vec<String>,
    pub no_messages: bool,
    pub byte_offset: bool,
    pub ignore_binary: bool,
    /// Group separator for context output. `None` = no separator.
    pub group_separator: Option<String>,
    /// Label for stdin in output.
    pub label: Option<String>,
    pub initial_tab: bool,
    pub null: bool,
    pub text: bool,
    pub threads: usize,
    pub no_index: bool,
    pub multi_file: bool,
    pub stdin: bool,
    pub max_line_len: usize,
    pub max_file_size: u64,
    pub no_limit: bool,
    pub output_mode: OutputMode,
}

/// Command-line arguments accepted by the `grep` binary: a subset of the
/// GNU grep interface with additional flags for thread count and index
/// control.
pub struct Cli {
    /// Search pattern (positional, unless -e or -f is used)
    pub pattern: Option<String>,
    /// Files or directories to search
    pub paths: Vec<Vec<u8>>,
    /// Patterns given with -e
    pub patterns: Vec<String>,
    /// Files to read patterns from (-f)
    pub pattern_file: Vec<Vec<u8>>,
    pub recursive: bool,
    pub ignore_case: bool,
    pub no_ignore_case: bool,
    pub line_number: bool,
    pub files_with_matches: bool,
    pub files_without_match: bool,
    pub count: bool,
    pub quiet: bool,
    pub max_count: Option<usize>,
    pub invert_match: bool,
    pub word_regexp: bool,
    pub line_regexp: bool,
    pub extended_regexp: bool,
    pub only_matching: bool,
    pub fixed_strings: bool,
    pub after_context: Option<usize>,
    pub before_context: Option<usize>,
    pub context: Option<usize>,
    pub color: ColorMode,
    /// Globs of files to search (--include)
    pub include_globs: Vec<String>,
    pub exclude: Vec<String>,
    pub exclude_dir: Vec<String>,
    pub no_filename: bool,
    pub with_filename: bool,
    pub no_messages: bool,
    pub byte_offset: bool,
    pub ignore_binary: bool,
    pub group_separator: Option<String>,
    pub no_group_separator: bool,
    pub label: Option<String>,
    pub initial_tab: bool,
    pub null: bool,
    /// Files to read exclude globs from
    pub exclude_from: Vec<Vec<u8>>,
    pub text: bool,
    pub binary: bool,
    /// Number of threads (0 = all CPUs)
    pub threads: usize,
    pub no_index: bool,
    /// Max line length before truncation (0 = no limit)
    pub max_line_len: usize,
    /// Max file size in bytes to search
    pub max_file_size: u64,
    pub json: bool,
    pub version: bool,
    pub help: Option<bool>,
}

impl Default for Cli {
    /// The values the command line gives when no option is set.
    fn default() -> (r: Self)
        ensures
            r.pattern is None,
            r.paths@.len() == 0,
            r.patterns@.len() == 0,
            r.pattern_file@.len() == 0,
            r.exclude_from@.len() == 0,
            r.color == ColorMode::Auto,
            r.threads == 0,
            r.max_line_len == 15000,
            r.max_file_size == 104857600,
            !r.recursive && !r.ignore_case && !r.no_ignore_case && !r.line_number,
            !r.files_with_matches && !r.files_without_match && !r.count && !r.quiet,
            r.max_count is None && !r.invert_match && !r.word_regexp && !r.line_regexp,
            !r.only_matching && !r.fixed_strings,
            r.after_context is None && r.before_context is None && r.context is None,
            !r.no_filename && !r.with_filename && !r.byte_offset && !r.no_group_separator,
            r.group_separator is None && !r.json,
    {
        Cli {
            pattern: None,
            paths: Vec::new(),
            patterns: Vec::new(),
            pattern_file: Vec::new(),
            recursive: false,
            ignore_case: false,
            no_ignore_case: false,
            line_number: false,
            files_with_matches: false,
            files_without_match: false,
            count: false,
            quiet: false,
            max_count: None,
            invert_match: false,
            word_regexp: false,
            line_regexp: false,
            extended_regexp: false,
            only_matching: false,
            fixed_strings: false,
            after_context: None,
            before_context: None,
            context: None,
            color: ColorMode::Auto,
            include_globs: Vec::new(),
            exclude: Vec::new(),
            exclude_dir: Vec::new(),
            no_filename: false,
            with_filename: false,
            no_messages: false,
            byte_offset: false,
            ignore_binary: false,
            group_separator: None,
            no_group_separator: false,
            label: None,
            initial_tab: false,
            null: false,
            exclude_from: Vec::new(),
            text: false,
            binary: false,
            threads: 0,
            no_index: false,
            max_line_len: 15000,
            max_file_size: 104857600,
            json: false,
            version: false,
            help: None,
        }
    }
}

/// What resolving the options reads from the environment: the contents of
/// the `-f` and `--exclude-from` files (`None` when one cannot be read),
/// whether standard input is a pipe and standard output a terminal, the
/// available parallelism, and the value of `FASTGREP_NO_LIMIT`.
pub struct ResolveEnv {
    pub pattern_file_contents: Vec<Option<String>>,
    pub exclude_from_contents: Vec<Option<String>>,
    pub stdin_is_pipe: bool,
    pub stdout_is_terminal: bool,
    pub available_parallelism: Option<usize>,
    pub no_limit_var: Option<String>,
}

/// `str::lines`: the lines of a text, split at `\n` or `\r\n`; the final
/// line ending is optional, so a trailing newline adds no empty line.
pub open spec fn text_lines(s: Seq<char>) -> Seq<Seq<char>>
    decreases s.len(),
{
    if s.len() == 0 {
        Seq::empty()
    } else {
        let k = first_newline(s, 0);
        let raw = s.take(k);
        let line = if k < s.len() && raw.len() > 0 && raw.last() == '\r' { raw.drop_last() } else { raw };
        if k < s.len() {
            proof { lemma_first_newline(s, 0); }
            seq![line] + text_lines(s.skip(k + 1))
        } else {
            seq![line]
        }
    }
}

/// The index of the first `\n` at or after `i`, or `s.len()`.
pub open spec fn first_newline(s: Seq<char>, i: int) -> int
    decreases s.len() - i,
{
    if i >= s.len() {
        s.len() as int
    } else if s[i] == '\n' {
        i
    } else {
        first_newline(s, i + 1)
    }
}

pub proof fn lemma_first_newline(s: Seq<char>, i: int)
    requires
        0 <= i <= s.len(),
    ensures
        i <= first_newline(s, i) <= s.len(),
        first_newline(s, i) < s.len() ==> s[first_newline(s, i)] == '\n',
        forall|j: int| i <= j < first_newline(s, i) ==> s[j] != '\n',
    decreases s.len() - i,
{
    if i < s.len() && s[i] != '\n' {
        lemma_first_newline(s, i + 1);
    }
}

/// The lines of `s` as separate strings.
pub fn split_lines(s: &str) -> (r: Vec<String>)
    ensures
        r@.map_values(|t: String| t@) == text_lines(s@),
{
    let cs = chars_of(s);
    let n = cs.len();
    let mut out: Vec<String> = Vec::new();
    let mut start: usize = 0;
    let ghost full = cs@;
    assert(full.skip(0) == full);
    while start < n
        invariant
            n == cs@.len(),
            full == cs@,
            full == s@,
            start <= n,
            out@.map_values(|t: String| t@) + text_lines(full.skip(start as int)) == text_lines(full),
        decreases n - start,
    {
        let ghost rest = full.skip(start as int);
        let mut k = start;
        while k < n && cs[k] != '\n'
            invariant
                start <= k <= n,
                n == cs@.len(),
                forall|j: int| start <= j < k ==> cs@[j] != '\n',
            decreases n - k,
        {
            k = k + 1;
        }
        proof {
            lemma_first_newline(rest, 0);
            assert forall|j: int| 0 <= j < k - start implies rest[j] != '\n' by {
                assert(rest[j] == cs@[start + j]);
            }
            if k < n {
                assert(rest[k - start] == '\n');
            }
            lemma_first_newline_unique(rest, 0, k - start);
        }
        let mut end = k;
        if k < n && end > start && cs[end - 1] == '\r' {
            end = end - 1;
        }
        let mut piece: Vec<char> = Vec::new();
        for j in start..end
            invariant
                start <= end <= n,
                n == cs@.len(),
                piece@ == cs@.subrange(start as int, j as int),
        {
            piece.push(cs[j]);
            assert(cs@.subrange(start as int, j + 1) == cs@.subrange(start as int, j as int).push(cs@[j as int]));
        }
        let line = string_from_chars(&piece);
        let ghost before = out@.map_values(|t: String| t@);
        out.push(line);
        proof {
            let raw = rest.take(k - start);
            assert(raw == cs@.subrange(start as int, k as int));
            if k < n && raw.len() > 0 && raw.last() == '\r' {
                assert(raw.drop_last() == cs@.subrange(start as int, end as int));
            }
            assert(out@.map_values(|t: String| t@) == before.push(line@));
            if k < n {
                assert(rest.skip(k - start + 1) == full.skip(k + 1));
                assert(text_lines(rest) == seq![line@] + text_lines(full.skip(k + 1)));
            } else {
                assert(text_lines(rest) == seq![line@]);
                assert(full.skip(n as int) == Seq::<char>::empty());
            }
        }
        if k >= n {
            assert(full.skip(n as int) == Seq::<char>::empty());
            return out;
        }
        start = k + 1;
    }
    assert(full.skip(n as int) == Seq::<char>::empty());
    assert(out@.map_values(|t: String| t@) + Seq::<Seq<char>>::empty() == out@.map_values(|t: String| t@));
    out
}

pub proof fn lemma_first_newline_unique(s: Seq<char>, i: int, k: int)
    requires
        0 <= i <= k <= s.len(),
        k < s.len() ==> s[k] == '\n',
        forall|j: int| i <= j < k ==> s[j] != '\n',
    ensures
        first_newline(s, i) == k,
    decreases k - i,
{
    if i < k {
        lemma_first_newline_unique(s, i + 1, k);
    }
}

/// The characters with Unicode's White_Space property, which `str::trim`
/// removes.
pub open spec fn is_white_space(c: char) -> bool {
    let u = c as u32;
    (0x09 <= u <= 0x0D) || u == 0x20 || u == 0x85 || u == 0xA0 || u == 0x1680 || (0x2000 <= u <= 0x200A)
        || u == 0x2028 || u == 0x2029 || u == 0x202F || u == 0x205F || u == 0x3000
}

/// `s` without its leading white space.
pub open spec fn trim_start(s: Seq<char>) -> Seq<char>
    decreases s.len(),
{
    if s.len() > 0 && is_white_space(s[0]) {
        trim_start(s.drop_first())
    } else {
        s
    }
}

/// `s` without its trailing white space.
pub open spec fn trim_end(s: Seq<char>) -> Seq<char>
    decreases s.len(),
{
    if s.len() > 0 && is_white_space(s.last()) {
        trim_end(s.drop_last())
    } else {
        s
    }
}

/// `str::trim`: the text without leading and trailing white space.
pub open spec fn str_trim(s: Seq<char>) -> Seq<char> {
    trim_end(trim_start(s))
}

/// `str::trim`, copied into a new string: the documentation defines white
/// space as the characters with Unicode's White_Space property.
#[verifier::external_body]
pub(crate) fn trim(s: &str) -> (r: String)
    ensures
        r@ == str_trim(s@),
{
    s.trim().to_string()
}

/// The byte strings of a list of byte vectors.
pub open spec fn byte_views(v: Seq<Vec<u8>>) -> Seq<Seq<u8>> {
    v.map_values(|b: Vec<u8>| b@)
}

/// The lines of the readable pattern files, in order.
pub open spec fn pattern_file_lines(contents: Seq<Option<String>>) -> Seq<Seq<char>>
    decreases contents.len(),
{
    if contents.len() == 0 {
        Seq::empty()
    } else {
        pattern_file_lines(contents.drop_last()) + match contents.last() {
            Some(c) => text_lines(c@),
            None => Seq::empty(),
        }
    }
}

/// The trimmed lines that are not empty.
pub open spec fn kept_globs(lines: Seq<Seq<char>>) -> Seq<Seq<char>>
    decreases lines.len(),
{
    if lines.len() == 0 {
        Seq::empty()
    } else {
        kept_globs(lines.drop_last()) + if str_trim(lines.last()).len() > 0 {
            seq![str_trim(lines.last())]
        } else {
            Seq::empty()
        }
    }
}

/// The exclude globs of the readable `--exclude-from` files, in order.
pub open spec fn exclude_file_globs(contents: Seq<Option<String>>) -> Seq<Seq<char>>
    decreases contents.len(),
{
    if contents.len() == 0 {
        Seq::empty()
    } else {
        exclude_file_globs(contents.drop_last()) + match contents.last() {
            Some(c) => kept_globs(text_lines(c@)),
            None => Seq::empty(),
        }
    }
}

/// The patterns: a positional pattern counts only when no `-e` or `-f`
/// pattern was given.
pub open spec fn resolved_patterns(pattern: Option<String>, ps: Seq<Seq<char>>) -> Seq<Seq<char>> {
    match pattern {
        Some(p) => if ps.len() == 0 { seq![p@] } else { ps },
        None => ps,
    }
}

/// The paths: with `-e` or `-f` patterns the positional pattern is a path;
/// without paths the current directory is searched unless standard input is
/// a pipe.
pub open spec fn resolved_paths(pattern: Option<String>, ps: Seq<Seq<char>>, paths: Seq<Seq<u8>>, pipe: bool) -> Seq<Seq<u8>> {
    match pattern {
        Some(p) if ps.len() != 0 => seq![encode_utf8(p@)] + paths,
        _ => if paths.len() == 0 && !pipe { seq![seq![46u8]] } else { paths },
    }
}

/// A count of context lines: none with `-o`, the specific option before `-C`.
pub open spec fn context_lines(only_matching: bool, specific: Option<usize>, context: Option<usize>) -> usize {
    if only_matching {
        0
    } else {
        match specific {
            Some(n) => n,
            None => match context {
                Some(n) => n,
                None => 0,
            },
        }
    }
}

impl Cli {
    /// Consumes the parsed options and produces a [`ResolvedConfig`]: reads
    /// patterns from the `-f` files and globs from the `--exclude-from`
    /// files, settles whether the positional argument is a pattern or a
    /// path, defaults the search path to `.`, the thread count to the
    /// available parallelism and the colour mode to the terminal state.
    pub fn resolve(self, env: &ResolveEnv) -> (r: ResolvedConfig)
        ensures
            ({
                let ps = string_views(self.patterns@) + pattern_file_lines(env.pattern_file_contents@);
                let paths = resolved_paths(self.pattern, ps, byte_views(self.paths@), env.stdin_is_pipe);
                &&& string_views(r.patterns@) == resolved_patterns(self.pattern, ps)
                &&& byte_views(r.paths@) == paths
                &&& r.stdin == (paths.len() == 0 && env.stdin_is_pipe)
                &&& r.multi_file == (!self.no_filename && (self.with_filename || paths.len() > 1 || self.recursive))
            }),
            string_views(r.exclude@) == string_views(self.exclude@) + exclude_file_globs(env.exclude_from_contents@),
            r.ignore_case == (self.ignore_case && !self.no_ignore_case),
            r.threads == if self.threads == 0 {
                match env.available_parallelism { Some(n) => n, None => 4 }
            } else {
                self.threads
            },
            r.color == match self.color {
                ColorMode::Always => true,
                ColorMode::Never => false,
                ColorMode::Auto => env.stdout_is_terminal,
            },
            r.after_context == context_lines(self.only_matching, self.after_context, self.context),
            r.before_context == context_lines(self.only_matching, self.before_context, self.context),
            r.no_limit == match env.no_limit_var { Some(v) => v@ == seq!['1'], None => false },
            r.max_count == match self.max_count { Some(n) => n, None => 0 },
            self.no_group_separator ==> r.group_separator is None,
            (!self.no_group_separator && self.group_separator is Some) ==> r.group_separator == self.group_separator,
            (!self.no_group_separator && self.group_separator is None) ==> (r.group_separator is Some
                && r.group_separator.unwrap()@ == seq!['-', '-']),
            r.output_mode == if self.json { OutputMode::Json } else { OutputMode::Text },
            r.recursive == self.recursive,
            r.line_number == self.line_number,
            r.files_with_matches == self.files_with_matches,
            r.files_without_match == self.files_without_match,
            r.count == self.count,
            r.quiet == self.quiet,
            r.invert_match == self.invert_match,
            r.word_regexp == self.word_regexp,
            r.line_regexp == self.line_regexp,
            r.fixed_strings == self.fixed_strings,
            r.only_matching == self.only_matching,
            r.include_globs == self.include_globs,
            r.exclude_dir == self.exclude_dir,
            r.no_messages == self.no_messages,
            r.byte_offset == self.byte_offset,
            r.ignore_binary == self.ignore_binary,
            r.label == self.label,
            r.initial_tab == self.initial_tab,
            r.null == self.null,
            r.text == self.text,
            r.no_index == self.no_index,
            r.max_line_len == self.max_line_len,
            r.max_file_size == self.max_file_size,
    {
        let Cli {
            pattern,
            paths: cli_paths,
            patterns: cli_patterns,
            pattern_file: _,
            recursive,
            ignore_case,
            no_ignore_case,
            line_number,
            files_with_matches,
            files_without_match,
            count,
            quiet,
            max_count,
            invert_match,
            word_regexp,
            line_regexp,
            extended_regexp: _,
            only_matching,
            fixed_strings,
            after_context,
            before_context,
            context,
            color,
            include_globs,
            exclude,
            exclude_dir,
            no_filename,
            with_filename,
            no_messages,
            byte_offset,
            ignore_binary,
            group_separator,
            no_group_separator,
            label,
            initial_tab,
            null,
            exclude_from: _,
            text,
            binary: _,
            threads,
            no_index,
            max_line_len,
            max_file_size,
            json,
            version: _,
            help: _,
        } = self;

        // With both -i and --no-ignore-case, --no-ignore-case wins.
        let ignore_case = if no_ignore_case { false } else { ignore_case };

        let exclude = append_exclude_globs(exclude, &env.exclude_from_contents);
        let is_stdin_pipe = env.stdin_is_pipe;
        let (patterns, paths) = patterns_and_paths(pattern, cli_patterns, cli_paths, &env.pattern_file_contents, is_stdin_pipe);

        let stdin = paths.len() == 0 && is_stdin_pipe;

        let threads = if threads == 0 {
            match env.available_parallelism {
                Some(n) => n,
                None => 4,
            }
        } else {
            threads
        };

        let color = match color {
            ColorMode::Always => true,
            ColorMode::Never => false,
            ColorMode::Auto => env.stdout_is_terminal,
        };

        let after_context = context_count(only_matching, after_context, context);
        let before_context = context_count(only_matching, before_context, context);

        let no_limit = match &env.no_limit_var {
            Some(v) => is_one(v.as_str()),
            None => false,
        };

        let multi_file = if no_filename {
            false
        } else if with_filename {
            true
        } else {
            paths.len() > 1 || recursive
        };

        let max_count = match max_count {
            Some(n) => n,
            None => 0,
        };

        let group_separator = if no_group_separator {
            None
        } else {
            match group_separator {
                Some(g) => Some(g),
                None => Some(dashes()),
            }
        };

        ResolvedConfig {
            patterns,
            paths,
            recursive,
            ignore_case,
            line_number,
            files_with_matches,
            files_without_match,
            count,
            quiet,
            max_count,
            invert_match,
            word_regexp,
            line_regexp,
            fixed_strings,
            only_matching,
            after_context,
            before_context,
            color,
            include_globs,
            exclude,
            exclude_dir,
            no_messages,
            byte_offset,
            ignore_binary,
            group_separator,
            label,
            initial_tab,
            null,
            text,
            threads,
            no_index,
            multi_file,
            stdin,
            max_line_len,
            max_file_size,
            no_limit,
            output_mode: if json { OutputMode::Json } else { OutputMode::Text },
        }
    }
}

/// Settles the patterns and the search paths: patterns from `-f` files
/// follow those of `-e` (empty lines are kept, since an empty pattern matches
/// every line); with any of them the positional argument is the first path.
fn patterns_and_paths(
    pattern: Option<String>,
    cli_patterns: Vec<String>,
    cli_paths: Vec<Vec<u8>>,
    pattern_file_contents: &Vec<Option<String>>,
    is_stdin_pipe: bool,
) -> (r: (Vec<String>, Vec<Vec<u8>>))
    ensures
        ({
            let ps = string_views(cli_patterns@) + pattern_file_lines(pattern_file_contents@);
            &&& string_views(r.0@) == resolved_patterns(pattern, ps)
            &&& byte_views(r.1@) == resolved_paths(pattern, ps, byte_views(cli_paths@), is_stdin_pipe)
        }),
{
    let cli_patterns = append_pattern_file_lines(cli_patterns, pattern_file_contents);
    let n_patterns = cli_patterns.len();
    match pattern {
        Some(p) => {
            if n_patterns == 0 {
                let mut patterns = cli_patterns;
                patterns.push(p);
                assert(string_views(patterns@) =~= seq![pattern.unwrap()@]);
                let paths = default_paths(cli_paths, is_stdin_pipe);
                (patterns, paths)
            } else {
                let mut paths: Vec<Vec<u8>> = Vec::new();
                paths.push(vstd::slice::slice_to_vec(p.as_str().as_bytes()));
                let ghost head = byte_views(paths@);
                let mut rest = cli_paths;
                paths.append(&mut rest);
                assert(byte_views(paths@) =~= head + byte_views(cli_paths@));
                (cli_patterns, paths)
            }
        },
        None => {
            let paths = default_paths(cli_paths, is_stdin_pipe);
            (cli_patterns, paths)
        },
    }
}

/// `--`.
fn dashes() -> (r: String)
    ensures
        r@ == seq!['-', '-'],
{
    let mut v: Vec<char> = Vec::new();
    v.push('-');
    v.push('-');
    string_from_chars(&v)
}

/// Whether the text is exactly `1`.
fn is_one(s: &str) -> (r: bool)
    ensures
        r == (s@ == seq!['1']),
{
    let cs = chars_of(s);
    let r = cs.len() == 1 && cs[0] == '1';
    proof {
        if cs@.len() == 1 && cs@[0] == '1' {
            assert(cs@ =~= seq!['1']);
        }
    }
    r
}

fn context_count(only_matching: bool, specific: Option<usize>, context: Option<usize>) -> (r: usize)
    ensures
        r == context_lines(only_matching, specific, context),
{
    if only_matching {
        0
    } else {
        match specific {
            Some(n) => n,
            None => match context {
                Some(n) => n,
                None => 0,
            },
        }
    }
}

/// The given paths, or `.` when there are none and standard input is not a pipe.
fn default_paths(paths: Vec<Vec<u8>>, is_stdin_pipe: bool) -> (r: Vec<Vec<u8>>)
    ensures
        byte_views(r@) == if paths@.len() == 0 && !is_stdin_pipe { seq![seq![46u8]] } else { byte_views(paths@) },
{
    if paths.len() == 0 && !is_stdin_pipe {
        let mut dot: Vec<u8> = Vec::new();
        dot.push(46u8);
        let mut r: Vec<Vec<u8>> = Vec::new();
        r.push(dot);
        assert(byte_views(r@) =~= seq![seq![46u8]]);
        r
    } else {
        paths
    }
}

/// Appends the lines of each readable pattern file.
fn append_pattern_file_lines(patterns: Vec<String>, contents: &Vec<Option<String>>) -> (r: Vec<String>)
    ensures
        string_views(r@) == string_views(patterns@) + pattern_file_lines(contents@),
{
    let mut out = patterns;
    let ghost start = string_views(out@);
    let n = contents.len();
    assert(contents@.take(0) == Seq::<Option<String>>::empty());
    for i in 0..n
        invariant
            n == contents@.len(),
            string_views(out@) == start + pattern_file_lines(contents@.take(i as int)),
    {
        let ghost before = string_views(out@);
        if let Some(content) = &contents[i] {
            let lines = split_lines(content.as_str());
            let m = lines.len();
            for j in 0..m
                invariant
                    m == lines@.len(),
                    string_views(out@) == before + string_views(lines@).take(j as int),
            {
                let ghost b2 = string_views(out@);
                out.push(lines[j].clone());
                assert(string_views(lines@).take(j + 1) == string_views(lines@).take(j as int).push(lines@[j as int]@));
                assert(string_views(out@) == b2.push(lines@[j as int]@));
            }
            assert(string_views(lines@).take(m as int) == string_views(lines@));
            assert(string_views(lines@) == lines@.map_values(|t: String| t@));
        }
        proof {
            assert(contents@.take(i + 1).drop_last() == contents@.take(i as int));
            assert(contents@.take(i + 1).last() == contents@[i as int]);
        }
    }
    assert(contents@.take(n as int) == contents@);
    out
}

/// Appends the non-empty trimmed lines of each readable exclude file.
fn append_exclude_globs(exclude: Vec<String>, contents: &Vec<Option<String>>) -> (r: Vec<String>)
    ensures
        string_views(r@) == string_views(exclude@) + exclude_file_globs(contents@),
{
    let mut out = exclude;
    let ghost start = string_views(out@);
    let n = contents.len();
    assert(contents@.take(0) == Seq::<Option<String>>::empty());
    for i in 0..n
        invariant
            n == contents@.len(),
            string_views(out@) == start + exclude_file_globs(contents@.take(i as int)),
    {
        let ghost before = string_views(out@);
        if let Some(content) = &contents[i] {
            let lines = split_lines(content.as_str());
            let ghost lv = string_views(lines@);
            assert(lv == lines@.map_values(|t: String| t@));
            let m = lines.len();
            assert(lv.take(0) == Seq::<Seq<char>>::empty());
            for j in 0..m
                invariant
                    m == lines@.len(),
                    lv == string_views(lines@),
                    string_views(out@) == before + kept_globs(lv.take(j as int)),
            {
                let t = trim(lines[j].as_str());
                let ghost b2 = string_views(out@);
                assert(lv.take(j + 1).drop_last() == lv.take(j as int));
                assert(lv.take(j + 1).last() == lines@[j as int]@);
                if !t.as_str().is_empty() {
                    out.push(t);
                    assert(string_views(out@) == b2.push(str_trim(lines@[j as int]@)));
                }
            }
            assert(lv.take(m as int) == lv);
        }
        proof {
            assert(contents@.take(i + 1).drop_last() == contents@.take(i as int));
            assert(contents@.take(i + 1).last() == contents@[i as int]);
        }
    }
    assert(contents@.take(n as int) == contents@);
    out
}

} // verus!
