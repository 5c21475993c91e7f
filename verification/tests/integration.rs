//! End-to-end searches of standard input, with the output GNU grep gives
//! for the same input and options.

use fastgrep::cli::Cli;
use fastgrep::cli::ResolveEnv;
use fastgrep::output::OutputConfig;
use fastgrep::pattern::CompiledPattern;
use fastgrep::searcher::fits_search;
use fastgrep::searcher::grep_input;

/// Runs a search of `input` as standard input with command-line style
/// options; returns the output and the exit status.
fn grep_stdin(input: &str, args: &[&str]) -> (String, i32) {
    let mut cli = Cli::default();
    let mut positional: Vec<String> = Vec::new();
    let mut it = args.iter();
    while let Some(a) = it.next() {
        match *a {
            "-E" => cli.extended_regexp = true,
            "-F" => cli.fixed_strings = true,
            "-i" => cli.ignore_case = true,
            "-w" => cli.word_regexp = true,
            "-x" => cli.line_regexp = true,
            "-n" => cli.line_number = true,
            "-c" => cli.count = true,
            "-v" => cli.invert_match = true,
            "-l" => cli.files_with_matches = true,
            "-o" => cli.only_matching = true,
            "-e" => cli.patterns.push(it.next().unwrap().to_string()),
            other => positional.push(other.to_string()),
        }
    }
    let mut pos = positional.into_iter();
    cli.pattern = pos.next();
    for p in pos {
        cli.paths.push(p.into_bytes());
    }
    let env = ResolveEnv {
        pattern_file_contents: Vec::new(),
        exclude_from_contents: Vec::new(),
        stdin_is_pipe: true,
        stdout_is_terminal: false,
        available_parallelism: Some(4),
        no_limit_var: None,
    };
    let config = cli.resolve(&env);
    assert!(config.stdin);
    let pattern = match CompiledPattern::compile(&config) {
        Ok(p) => p,
        Err(_) => return (String::new(), 2),
    };
    let output_config = OutputConfig::from_config(&config);
    let data = input.as_bytes();
    assert!(fits_search(data));
    let mut out: Vec<u8> = Vec::new();
    let (found, _) =
        grep_input(data, &pattern, config.invert_match, &output_config, &mut out, 19).unwrap();
    (String::from_utf8(out).unwrap(), if found { 0 } else { 1 })
}

fn expect(input: &str, args: &[&str], stdout: &str, status: i32) {
    let (out, code) = grep_stdin(input, args);
    assert_eq!(code, status, "exit status for {args:?}");
    assert_eq!(out, stdout, "stdout for {args:?}");
}

#[test]
fn dot_matches_any_char() {
    expect("abc\ndef\n", &["-E", "a.c"], "abc\n", 0);
}

#[test]
fn dot_star_matches_all_lines() {
    expect("hello\nworld\n", &["-E", ".*"], "hello\nworld\n", 0);
}

#[test]
fn anchor_caret() {
    expect("hello\n  hello\n", &["-E", "^hello"], "hello\n", 0);
}

#[test]
fn anchor_dollar() {
    expect("hello\nhello world\n", &["-E", "hello$"], "hello\n", 0);
}

#[test]
fn anchor_caret_dollar_empty_line() {
    expect("hello\n\nworld\n", &["-E", "^$"], "\n", 0);
}

#[test]
fn alternation() {
    expect("alpha\nbeta\ngamma\n", &["-E", "alpha|gamma"], "alpha\ngamma\n", 0);
}

#[test]
fn character_class() {
    expect("cat\ncut\ncot\nczt\n", &["-E", "c[aou]t"], "cat\ncut\ncot\n", 0);
}

#[test]
fn negated_character_class() {
    expect("cat\ncut\ncot\nczt\n", &["-E", "c[^aou]t"], "czt\n", 0);
}

#[test]
fn quantifier_plus() {
    expect("ab\naab\naaab\nb\n", &["-E", "a+b"], "ab\naab\naaab\n", 0);
}

#[test]
fn quantifier_question() {
    expect("ab\naab\nb\n", &["-E", "a?b"], "ab\naab\nb\n", 0);
}

#[test]
fn quantifier_exact() {
    expect("ab\naab\naaab\n", &["-E", "a{2}b"], "aab\naaab\n", 0);
}

#[test]
fn pattern_at_line_boundaries() {
    expect("abc\nxabc\nabcx\nxabcx\n", &["-E", "^abc$"], "abc\n", 0);
}

#[test]
fn case_insensitive_stdin() {
    expect(
        "Hello World\nhello world\nHELLO\n",
        &["-i", "hello"],
        "Hello World\nhello world\nHELLO\n",
        0,
    );
}

#[test]
fn case_insensitive_with_fixed_string() {
    expect("Hello\nhello\nHELLO\nhelp\n", &["-i", "-F", "HELLO"], "Hello\nhello\nHELLO\n", 0);
}

#[test]
fn case_insensitive_with_word() {
    expect(
        "HELLO world\nhelloworld\nHello there\n",
        &["-i", "-w", "hello"],
        "HELLO world\nHello there\n",
        0,
    );
}

#[test]
fn line_numbers_stdin() {
    expect("aaa\nbbb\naaa\n", &["-n", "aaa"], "1:aaa\n3:aaa\n", 0);
}

#[test]
fn line_numbers_start_at_one() {
    expect("match\n", &["-n", "match"], "1:match\n", 0);
}

#[test]
fn line_numbers_no_trailing_newline() {
    expect("hello\nworld", &["-n", "world"], "2:world\n", 0);
}

#[test]
fn count_no_match() {
    expect("hello\n", &["-c", "xyz"], "0\n", 1);
}

#[test]
fn count_multiple_matches_same_line() {
    // -c counts lines, not occurrences
    expect("aaa bbb aaa\n", &["-c", "aaa"], "1\n", 0);
}

#[test]
fn count_stdin() {
    expect("aaa\nbbb\naaa\nccc\naaa\n", &["-c", "aaa"], "3\n", 0);
}

#[test]
fn count_with_invert() {
    expect("a\nb\na\n", &["-c", "-v", "a"], "1\n", 0);
}

#[test]
fn count_ignores_line_numbers() {
    // -n is ignored when -c is present
    expect("a\nb\na\n", &["-c", "-n", "a"], "2\n", 0);
}

#[test]
fn invert_match_stdin() {
    expect("aaa\nbbb\naaa\n", &["-v", "aaa"], "bbb\n", 0);
}

#[test]
fn invert_all_lines_match() {
    expect("a\na\na\n", &["-v", "a"], "", 1);
}

#[test]
fn invert_no_lines_match() {
    expect("a\nb\nc\n", &["-v", "xyz"], "a\nb\nc\n", 0);
}

#[test]
fn invert_with_line_numbers() {
    expect("a\nb\nc\n", &["-v", "-n", "b"], "1:a\n3:c\n", 0);
}

#[test]
fn fixed_string_dot_not_regex() {
    expect("foo.bar\nfooXbar\n", &["-F", "foo.bar"], "foo.bar\n", 0);
}

#[test]
fn fixed_string_special_chars() {
    expect("a+b\na++b\nab\n", &["-F", "a+b"], "a+b\n", 0);
}

#[test]
fn fixed_string_brackets() {
    expect("[test]\ntest\n", &["-F", "[test]"], "[test]\n", 0);
}

#[test]
fn fixed_string_backslash() {
    expect("a\\b\nab\n", &["-F", "a\\b"], "a\\b\n", 0);
}

#[test]
fn word_not_embedded() {
    expect("helloworld\nhello world\nhello\n", &["-w", "hello"], "hello world\nhello\n", 0);
}

#[test]
fn word_with_punctuation() {
    expect(
        "hello, world\nhello.world\nhello_world\n",
        &["-w", "hello"],
        "hello, world\nhello.world\n",
        0,
    );
}

#[test]
fn word_at_start_and_end() {
    expect("test\ntest line\nline test\n", &["-w", "test"], "test\ntest line\nline test\n", 0);
}

#[test]
fn word_with_fixed_string() {
    expect("a.b c\na.bx\nxa.b\n", &["-w", "-F", "a.b"], "a.b c\n", 0);
}

#[test]
fn word_stdin() {
    expect(
        "error found\nerror_code\nmy error here\n",
        &["-w", "error"],
        "error found\nmy error here\n",
        0,
    );
}

#[test]
fn extended_grouping() {
    expect("abc\nabc abc\nab\n", &["-E", "(abc)+"], "abc\nabc abc\n", 0);
}

#[test]
fn extended_pipe_alternation() {
    expect("cat\ndog\nbird\n", &["-E", "cat|dog"], "cat\ndog\n", 0);
}

#[test]
fn multiple_patterns_stdin() {
    expect("alpha\nbeta\ngamma\n", &["-e", "alpha", "-e", "gamma"], "alpha\ngamma\n", 0);
}

#[test]
fn multiple_patterns_with_fixed() {
    expect("a.b\nc.d\naxb\n", &["-F", "-e", "a.b", "-e", "c.d"], "a.b\nc.d\n", 0);
}

#[test]
fn multiple_patterns_overlapping() {
    expect("hello\n", &["-e", "hel", "-e", "ello"], "hello\n", 0);
}

#[test]
fn combined_count_invert() {
    expect("a\nb\nc\n", &["-c", "-v", "a"], "2\n", 0);
}

#[test]
fn combined_insensitive_word_fixed() {
    expect("Hello World\nhello_world\n", &["-i", "-w", "-F", "hello"], "Hello World\n", 0);
}

#[test]
fn stdin_basic() {
    expect("123Ok123\nhello\nOk again\n", &["Ok"], "123Ok123\nOk again\n", 0);
}

#[test]
fn stdin_no_match() {
    expect("hello\nworld\n", &["zzz"], "", 1);
}

#[test]
fn stdin_case_insensitive() {
    expect(
        "Hello World\nhello world\nHELLO\n",
        &["-i", "hello"],
        "Hello World\nhello world\nHELLO\n",
        0,
    );
}

#[test]
fn stdin_line_numbers() {
    expect("aaa\nbbb\naaa\n", &["-n", "aaa"], "1:aaa\n3:aaa\n", 0);
}

#[test]
fn stdin_count() {
    expect("aaa\nbbb\naaa\nccc\naaa\n", &["-c", "aaa"], "3\n", 0);
}

#[test]
fn stdin_invert() {
    expect("aaa\nbbb\naaa\n", &["-v", "aaa"], "bbb\n", 0);
}

#[test]
fn stdin_fixed_string() {
    expect("foo.bar\nfooXbar\n", &["-F", "foo.bar"], "foo.bar\n", 0);
}

#[test]
fn stdin_word_regexp() {
    expect(
        "error found\nerror_code\nmy error here\n",
        &["-w", "error"],
        "error found\nmy error here\n",
        0,
    );
}

#[test]
fn stdin_multiple_patterns() {
    expect("alpha\nbeta\ngamma\n", &["-e", "alpha", "-e", "gamma"], "alpha\ngamma\n", 0);
}

#[test]
fn stdin_empty_input() {
    expect("", &["pattern"], "", 1);
}

#[test]
fn file_no_trailing_newline() {
    expect("hello", &["hello"], "hello\n", 0);
}

#[test]
fn file_no_trailing_newline_multi_line() {
    expect("aaa\nbbb", &["bbb"], "bbb\n", 0);
}

#[test]
fn file_only_newlines() {
    expect("\n\n\n", &["-E", "^$"], "\n\n\n", 0);
}

#[test]
fn single_empty_line() {
    expect("\n", &["-c", "-E", "^$"], "1\n", 0);
}

#[test]
fn line_with_only_spaces() {
    expect("  \nhello\n  \n", &["-E", "^\\s+$"], "  \n  \n", 0);
}
