//! Searches of files and directory trees, with the output GNU grep gives.
//! Files are held in memory; a tree is walked with the library's walk
//! decisions, and each file is searched as the program searches it.

use fastgrep::cli::Cli;
use fastgrep::cli::ResolveEnv;
use fastgrep::output::FormatOutcome;
use fastgrep::output::OutputConfig;
use fastgrep::output::field_width;
use fastgrep::pattern::CompiledPattern;
use fastgrep::searcher::grep_file;
use fastgrep::searcher::grep_input;
use fastgrep::walker::EntryKind;
use fastgrep::walker::WalkAction;
use fastgrep::walker::entry_action;
use fastgrep::walker::seed_action;
use fastgrep::walker::size_limit;

const TEST_FILE: &[u8] = b"Hello World\nhello world\nHELLO WORLD\nfoo bar baz\nfoo BAR baz\n\
line with error message\nanother error here\nno match on this line\nError at the start\nend of file\n";

/// The test tree: `dir/file1.txt`, `dir/file2.txt`, `dir/sub/file3.txt`.
fn test_tree() -> Vec<(&'static str, &'static [u8])> {
    vec![
        ("dir/file1.txt", b"alpha beta gamma\ndelta epsilon zeta\nalpha again\n"),
        ("dir/file2.txt", b"one two three\nalpha in file2\nfour five six\n"),
        ("dir/sub/file3.txt", b"nested alpha line\nnothing here\n"),
    ]
}

fn single(name: &'static str, data: &'static [u8]) -> Vec<(&'static str, &'static [u8])> {
    vec![(name, data)]
}

/// Parses command-line style options (short options may be combined).
fn parse(args: &[&str]) -> Cli {
    let mut cli = Cli::default();
    let mut positional: Vec<String> = Vec::new();
    let mut it = args.iter();
    while let Some(a) = it.next() {
        if let Some(v) = a.strip_prefix("--exclude-dir=") {
            cli.exclude_dir.push(v.to_string());
            continue;
        }
        if a.starts_with('-') && a.len() > 1 {
            let flags: Vec<char> = a[1..].chars().collect();
            let mut k = 0;
            while k < flags.len() {
                match flags[k] {
                    'E' => cli.extended_regexp = true,
                    'F' => cli.fixed_strings = true,
                    'i' => cli.ignore_case = true,
                    'w' => cli.word_regexp = true,
                    'n' => cli.line_number = true,
                    'c' => cli.count = true,
                    'v' => cli.invert_match = true,
                    'l' => cli.files_with_matches = true,
                    'o' => cli.only_matching = true,
                    'b' => cli.byte_offset = true,
                    'h' => cli.no_filename = true,
                    'H' => cli.with_filename = true,
                    'r' => cli.recursive = true,
                    'm' => {
                        let rest: String = flags[k + 1..].iter().collect();
                        cli.max_count = Some(rest.parse().unwrap());
                        k = flags.len();
                        continue;
                    }
                    'e' => cli.patterns.push(it.next().unwrap().to_string()),
                    other => panic!("unknown option {other}"),
                }
                k += 1;
            }
        } else {
            positional.push(a.to_string());
        }
    }
    let mut pos = positional.into_iter();
    if cli.patterns.is_empty() {
        cli.pattern = pos.next();
    }
    for p in pos {
        cli.paths.push(p.into_bytes());
    }
    cli
}

/// Lists the files under `path` in the tree that the walk hands out.
fn walk(path: &str, tree: &[(&str, &[u8])], cli_config: &fastgrep::cli::ResolvedConfig, out: &mut Vec<String>) {
    let is_file = tree.iter().any(|(p, _)| *p == path);
    let size = tree.iter().find(|(p, _)| *p == path).map(|(_, d)| d.len() as u64);
    match seed_action(is_file, size, size_limit(cli_config), cli_config.recursive) {
        WalkAction::Search => out.push(path.to_string()),
        WalkAction::Descend => walk_dir(path, tree, cli_config, out),
        WalkAction::SkipTooLarge(_) | WalkAction::Ignore => {}
    }
}

fn walk_dir(dir: &str, tree: &[(&str, &[u8])], c: &fastgrep::cli::ResolvedConfig, out: &mut Vec<String>) {
    let prefix = format!("{dir}/");
    let mut names: Vec<(String, EntryKind)> = Vec::new();
    for (p, _) in tree {
        if let Some(rest) = p.strip_prefix(&prefix) {
            match rest.split_once('/') {
                Some((d, _)) => {
                    if !names.iter().any(|(n, _)| n == d) {
                        names.push((d.to_string(), EntryKind::Directory));
                    }
                }
                None => names.push((rest.to_string(), EntryKind::File)),
            }
        }
    }
    for (name, kind) in names {
        let full = format!("{prefix}{name}");
        match entry_action(kind, &name, None, &c.include_globs, &c.exclude, &c.exclude_dir, size_limit(c)) {
            WalkAction::Search => out.push(full),
            WalkAction::Descend => walk_dir(&full, tree, c, out),
            WalkAction::SkipTooLarge(_) | WalkAction::Ignore => {}
        }
    }
}

/// Runs a search of the given files (or trees) as the program runs it;
/// returns the output and the exit status.
fn grep_files(args: &[&str], tree: &[(&str, &[u8])]) -> (String, i32) {
    let cli = parse(args);
    let env = ResolveEnv {
        pattern_file_contents: Vec::new(),
        exclude_from_contents: Vec::new(),
        stdin_is_pipe: false,
        stdout_is_terminal: false,
        available_parallelism: Some(4),
        no_limit_var: None,
    };
    let config = cli.resolve(&env);
    let pattern = CompiledPattern::compile(&config).unwrap();
    let output_config = OutputConfig::from_config(&config);
    let mut files: Vec<String> = Vec::new();
    for p in &config.paths {
        walk(std::str::from_utf8(p).unwrap(), tree, &config, &mut files);
    }
    let mut out: Vec<u8> = Vec::new();
    let mut found = false;
    for f in files {
        let data = tree.iter().find(|(p, _)| *p == f).unwrap().1;
        let mut buf: Vec<u8> = Vec::new();
        let (count, outcome) = grep_file(
            f.as_bytes(),
            data,
            &pattern,
            config.invert_match,
            &output_config,
            &mut buf,
            field_width(data.len() as u64),
        )
        .unwrap();
        assert!(matches!(outcome, FormatOutcome::Written));
        found |= count > 0;
        out.extend_from_slice(&buf);
    }
    (String::from_utf8(out).unwrap(), if found { 0 } else { 1 })
}

fn expect(args: &[&str], tree: &[(&str, &[u8])], stdout: &str, status: i32) {
    let (out, code) = grep_files(args, tree);
    assert_eq!(code, status, "exit status for {args:?}");
    assert_eq!(out, stdout, "stdout for {args:?}");
}

/// Compares the output lines in any order, as output from several files may
/// come in any order.
fn expect_lines(args: &[&str], tree: &[(&str, &[u8])], lines: &[&str], status: i32) {
    let (out, code) = grep_files(args, tree);
    assert_eq!(code, status, "exit status for {args:?}");
    let mut got: Vec<&str> = out.lines().collect();
    let mut want: Vec<&str> = lines.to_vec();
    got.sort();
    want.sort();
    assert_eq!(got, want, "lines for {args:?}");
}

fn file() -> Vec<(&'static str, &'static [u8])> {
    single("test.txt", TEST_FILE)
}

const ERROR_LINES: &str = "line with error message\nanother error here\n";

// ---------------------------------------------------------------- one file

#[test]
fn integration_basic_match() {
    expect(&["error", "test.txt"], &file(), ERROR_LINES, 0);
}

#[test]
fn basic_matching_basic_match() {
    expect(&["error", "test.txt"], &file(), ERROR_LINES, 0);
}

#[test]
fn integration_no_match() {
    expect(&["nonexistent_pattern_xyz", "test.txt"], &file(), "", 1);
}

#[test]
fn basic_matching_no_match() {
    expect(&["nonexistent_pattern_xyz", "test.txt"], &file(), "", 1);
}

#[test]
fn case_insensitive() {
    expect(&["-i", "hello", "test.txt"], &file(), "Hello World\nhello world\nHELLO WORLD\n", 0);
}

#[test]
fn case_insensitive_file() {
    expect(&["-i", "hello", "test.txt"], &file(), "Hello World\nhello world\nHELLO WORLD\n", 0);
}

#[test]
fn line_numbers() {
    expect(&["-n", "error", "test.txt"], &file(), "6:line with error message\n7:another error here\n", 0);
}

#[test]
fn line_numbers_file() {
    expect(&["-n", "error", "test.txt"], &file(), "6:line with error message\n7:another error here\n", 0);
}

#[test]
fn count_mode() {
    expect(&["-c", "error", "test.txt"], &file(), "2\n", 0);
}

#[test]
fn count_file() {
    expect(&["-c", "error", "test.txt"], &file(), "2\n", 0);
}

#[test]
fn integration_count_empty_file() {
    expect(&["-c", "pattern", "empty.txt"], &single("empty.txt", b""), "0\n", 1);
}

#[test]
fn flags_count_empty_file() {
    expect(&["-c", "pattern", "empty.txt"], &single("empty.txt", b""), "0\n", 1);
}

const NOT_ERROR_LINES: &str = "Hello World\nhello world\nHELLO WORLD\nfoo bar baz\nfoo BAR baz\n\
no match on this line\nError at the start\nend of file\n";

#[test]
fn invert_match() {
    expect(&["-v", "error", "test.txt"], &file(), NOT_ERROR_LINES, 0);
}

#[test]
fn invert_file() {
    expect(&["-v", "error", "test.txt"], &file(), NOT_ERROR_LINES, 0);
}

#[test]
fn fixed_string() {
    expect(&["-F", "foo bar", "test.txt"], &file(), "foo bar baz\n", 0);
}

#[test]
fn fixed_string_file() {
    expect(&["-F", "foo bar", "test.txt"], &file(), "foo bar baz\n", 0);
}

#[test]
fn word_regexp() {
    expect(&["-w", "error", "test.txt"], &file(), ERROR_LINES, 0);
}

#[test]
fn word_regexp_file() {
    expect(&["-w", "error", "test.txt"], &file(), ERROR_LINES, 0);
}

const FOO_OR_ERROR: &str = "foo bar baz\nfoo BAR baz\nline with error message\nanother error here\n";

#[test]
fn extended_regexp() {
    expect(&["-E", "foo|error", "test.txt"], &file(), FOO_OR_ERROR, 0);
}

#[test]
fn extended_regexp_file() {
    expect(&["-E", "foo|error", "test.txt"], &file(), FOO_OR_ERROR, 0);
}

const HELLO_OR_ERROR: &str = "hello world\nline with error message\nanother error here\n";

#[test]
fn multiple_patterns_e() {
    expect(&["-e", "hello", "-e", "error", "test.txt"], &file(), HELLO_OR_ERROR, 0);
}

#[test]
fn multiple_patterns_file() {
    expect(&["-e", "hello", "-e", "error", "test.txt"], &file(), HELLO_OR_ERROR, 0);
}

const HELLO_NUMBERED: &str = "1:Hello World\n2:hello world\n3:HELLO WORLD\n";

#[test]
fn combined_flags_in() {
    expect(&["-i", "-n", "hello", "test.txt"], &file(), HELLO_NUMBERED, 0);
}

#[test]
fn combined_in_file() {
    expect(&["-i", "-n", "hello", "test.txt"], &file(), HELLO_NUMBERED, 0);
}

#[test]
fn combined_flags_inv() {
    expect(&["-v", "-c", "error", "test.txt"], &file(), "8\n", 0);
}

#[test]
fn combined_vc_file() {
    expect(&["-v", "-c", "error", "test.txt"], &file(), "8\n", 0);
}

#[test]
fn integration_files_with_matches_single() {
    expect(&["-l", "error", "test.txt"], &file(), "test.txt\n", 0);
}

#[test]
fn files_recursive_files_with_matches_single() {
    expect(&["-l", "error", "test.txt"], &file(), "test.txt\n", 0);
}

#[test]
fn integration_files_with_matches_no_match() {
    expect(&["-l", "zzz_no_match_zzz", "test.txt"], &file(), "", 1);
}

#[test]
fn files_recursive_files_with_matches_no_match() {
    expect(&["-l", "zzz_no_match_zzz", "test.txt"], &file(), "", 1);
}

#[test]
fn integration_files_with_matches_ignores_line_numbers() {
    expect(&["-l", "-n", "error", "test.txt"], &file(), "test.txt\n", 0);
}

#[test]
fn files_recursive_files_with_matches_ignores_line_numbers() {
    expect(&["-l", "-n", "error", "test.txt"], &file(), "test.txt\n", 0);
}

#[test]
fn integration_exit_code_match() {
    assert_eq!(grep_files(&["error", "test.txt"], &file()).1, 0);
}

#[test]
fn edge_cases_exit_code_match() {
    assert_eq!(grep_files(&["error", "test.txt"], &file()).1, 0);
}

#[test]
fn integration_exit_code_no_match() {
    assert_eq!(grep_files(&["zzz_no_match_zzz", "test.txt"], &file()).1, 1);
}

#[test]
fn edge_cases_exit_code_no_match() {
    assert_eq!(grep_files(&["zzz_no_match_zzz", "test.txt"], &file()).1, 1);
}

#[test]
fn edge_cases_exit_code_no_match_stdin() {
    let config = parse(&["xyz"]).resolve(&ResolveEnv {
        pattern_file_contents: Vec::new(),
        exclude_from_contents: Vec::new(),
        stdin_is_pipe: true,
        stdout_is_terminal: false,
        available_parallelism: Some(4),
        no_limit_var: None,
    });
    let pattern = CompiledPattern::compile(&config).unwrap();
    let mut out = Vec::new();
    let (found, _) =
        grep_input(b"hello\n", &pattern, false, &OutputConfig::from_config(&config), &mut out, 19).unwrap();
    assert!(!found);
    assert!(out.is_empty());
}

#[test]
fn integration_empty_file() {
    assert_eq!(grep_files(&["pattern", "empty.txt"], &single("empty.txt", b"")).1, 1);
}

#[test]
fn edge_cases_empty_file() {
    assert_eq!(grep_files(&["pattern", "empty.txt"], &single("empty.txt", b"")).1, 1);
}

#[test]
fn integration_binary_file_count_actual_lines() {
    expect(&["-c", "hello", "b.bin"], &single("b.bin", b"hello\nhello\n\x00binary\nhello\n"), "3\n", 0);
}

#[test]
fn binary_binary_file_count_actual_lines() {
    expect(&["-c", "hello", "b.bin"], &single("b.bin", b"hello\nhello\n\x00binary\nhello\n"), "3\n", 0);
}

#[test]
fn integration_invert_files_with_matches_all_match() {
    expect(&["-l", "-v", "a", "a.txt"], &single("a.txt", b"a\na\na\n"), "", 1);
}

#[test]
fn binary_invert_files_with_matches_all_match() {
    expect(&["-l", "-v", "a", "a.txt"], &single("a.txt", b"a\na\na\n"), "", 1);
}

#[test]
fn with_filename_single_file() {
    expect(&["-H", "error", "test.txt"], &file(), "test.txt:line with error message\ntest.txt:another error here\n", 0);
}

#[test]
fn with_filename_line_numbers() {
    expect(
        &["-Hn", "error", "test.txt"],
        &file(),
        "test.txt:6:line with error message\ntest.txt:7:another error here\n",
        0,
    );
}

#[test]
fn max_count_file() {
    expect(&["-m1", "error", "test.txt"], &file(), "line with error message\n", 0);
}

#[test]
fn byte_offset_file() {
    expect(&["-b", "error", "test.txt"], &file(), "60:line with error message\n84:another error here\n", 0);
}

#[test]
fn byte_offset_with_line_numbers_file() {
    expect(&["-bn", "error", "test.txt"], &file(), "6:60:line with error message\n7:84:another error here\n", 0);
}

#[test]
fn only_matching_file() {
    expect(&["-o", "error", "test.txt"], &file(), "error\nerror\n", 0);
}

#[test]
fn only_matching_file_with_line_numbers() {
    expect(&["-on", "error", "test.txt"], &file(), "6:error\n7:error\n", 0);
}

#[test]
fn exclude_dir_no_effect_without_recursive() {
    expect(&["--exclude-dir=sub", "error", "test.txt"], &file(), ERROR_LINES, 0);
}

// ---------------------------------------------------------------- several files

#[test]
fn no_filename_multi_file() {
    expect_lines(
        &["-h", "alpha", "dir/file1.txt", "dir/file2.txt"],
        &test_tree(),
        &["alpha beta gamma", "alpha again", "alpha in file2"],
        0,
    );
}

#[test]
fn no_filename_with_line_numbers() {
    expect_lines(
        &["-hn", "alpha", "dir/file1.txt", "dir/file2.txt"],
        &test_tree(),
        &["1:alpha beta gamma", "3:alpha again", "2:alpha in file2"],
        0,
    );
}

#[test]
fn no_filename_count() {
    expect_lines(&["-hc", "alpha", "dir/file1.txt", "dir/file2.txt"], &test_tree(), &["2", "1"], 0);
}

#[test]
fn files_recursive_multi_file_match() {
    expect_lines(
        &["alpha", "dir/file1.txt", "dir/file2.txt"],
        &test_tree(),
        &["dir/file1.txt:alpha beta gamma", "dir/file1.txt:alpha again", "dir/file2.txt:alpha in file2"],
        0,
    );
}

#[test]
fn files_recursive_multi_file_count() {
    expect_lines(
        &["-c", "alpha", "dir/file1.txt", "dir/file2.txt"],
        &test_tree(),
        &["dir/file1.txt:2", "dir/file2.txt:1"],
        0,
    );
}

#[test]
fn files_recursive_count_zero_match_files_shown() {
    expect_lines(
        &["-c", "delta", "dir/file1.txt", "dir/file2.txt"],
        &test_tree(),
        &["dir/file1.txt:1", "dir/file2.txt:0"],
        0,
    );
}

// ---------------------------------------------------------------- trees

const ALPHA_LINES: [&str; 4] = [
    "dir/file1.txt:alpha beta gamma",
    "dir/file1.txt:alpha again",
    "dir/file2.txt:alpha in file2",
    "dir/sub/file3.txt:nested alpha line",
];

#[test]
fn files_recursive_recursive_search() {
    expect_lines(&["-r", "alpha", "dir"], &test_tree(), &ALPHA_LINES, 0);
}

#[test]
fn files_recursive_recursive_files_with_matches() {
    expect_lines(&["-rl", "alpha", "dir"], &test_tree(), &["dir/file1.txt", "dir/file2.txt", "dir/sub/file3.txt"], 0);
}

#[test]
fn files_recursive_recursive_count() {
    expect_lines(
        &["-rc", "alpha", "dir"],
        &test_tree(),
        &["dir/file1.txt:2", "dir/file2.txt:1", "dir/sub/file3.txt:1"],
        0,
    );
}

#[test]
fn files_recursive_recursive_line_numbers() {
    expect_lines(
        &["-rn", "alpha", "dir"],
        &test_tree(),
        &[
            "dir/file1.txt:1:alpha beta gamma",
            "dir/file1.txt:3:alpha again",
            "dir/file2.txt:2:alpha in file2",
            "dir/sub/file3.txt:1:nested alpha line",
        ],
        0,
    );
}

#[test]
fn files_recursive_recursive_no_match() {
    assert_eq!(grep_files(&["-r", "zzz_no_match_zzz", "dir"], &test_tree()).1, 1);
}

#[test]
fn files_recursive_recursive_case_insensitive() {
    expect_lines(&["-ri", "ALPHA", "dir"], &test_tree(), &ALPHA_LINES, 0);
}

#[test]
fn files_recursive_recursive_invert_count() {
    expect_lines(
        &["-rvc", "alpha", "dir"],
        &test_tree(),
        &["dir/file1.txt:1", "dir/file2.txt:2", "dir/sub/file3.txt:1"],
        0,
    );
}

#[test]
fn exclude_dir_basic() {
    expect_lines(&["-r", "--exclude-dir=sub", "alpha", "dir"], &test_tree(), &ALPHA_LINES[..3], 0);
}

#[test]
fn no_filename_recursive() {
    expect_lines(
        &["-rh", "alpha", "dir"],
        &test_tree(),
        &["alpha beta gamma", "alpha again", "alpha in file2", "nested alpha line"],
        0,
    );
}
