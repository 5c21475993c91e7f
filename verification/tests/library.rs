//! Checks of the library on concrete values: the laws it states, the edge
//! cases it handles, the exact output of its formatters and the errors it
//! reports.

use std::collections::BTreeMap;

use fastgrep::cache::CacheEntry;
use fastgrep::cache::CacheIndex;
use fastgrep::cache::CacheRecord;
use fastgrep::cache::FileIdentity;
use fastgrep::cli::Cli;
use fastgrep::cli::ColorMode;
use fastgrep::cli::OutputMode;
use fastgrep::cli::ResolveEnv;
use fastgrep::cli::ResolvedConfig;
use fastgrep::output::FormatOutcome;
use fastgrep::output::OutputConfig;
use fastgrep::output::TAB_FIELD_WIDTH_STDIN;
use fastgrep::output::field_width;
use fastgrep::output::format_result;
use fastgrep::output::write_group_separator;
use fastgrep::output::write_json_context;
use fastgrep::output::write_json_match;
use fastgrep::output::write_json_only_matching;
use fastgrep::output::write_json_path;
use fastgrep::output::write_json_size_limit_warning;
use fastgrep::output::write_json_summary;
use fastgrep::output::write_line_match;
use fastgrep::parallel::ChunkMatches;
use fastgrep::parallel::ChunkedWork;
use fastgrep::parallel::chunk_first_lines;
use fastgrep::parallel::chunk_stops;
use fastgrep::parallel::chunked_work;
use fastgrep::parallel::count_chunk;
use fastgrep::parallel::merge_chunk_matches;
use fastgrep::parallel::search_chunk;
use fastgrep::parallel::split_at_newlines;
use fastgrep::parallel::total_count;
use fastgrep::parallel::write_chunk_matches;
use fastgrep::pattern::CompiledPattern;
use fastgrep::pattern::extract_literal_prefix;
use fastgrep::pattern::format_hex16;
use fastgrep::pattern::has_top_level_alternation;
use fastgrep::pattern::is_literal;
use fastgrep::searcher::LineMatch;
use fastgrep::searcher::exit_status;
use fastgrep::searcher::grep_file;
use fastgrep::searcher::keeps_output;
use fastgrep::searcher::is_binary;
use fastgrep::searcher::search_file_contents;
use fastgrep::searcher::search_input;
use fastgrep::searcher::stream_file_contents;
use fastgrep::searcher::strip_line_terminator;
use fastgrep::trigram::FileRecord;
use fastgrep::trigram::FileStamp;
use fastgrep::trigram::StoredIndexInfo;
use fastgrep::trigram::TrigramIndex;
use fastgrep::trigram::eviction_plan;
use fastgrep::walker::EntryKind;
use fastgrep::walker::WalkAction;
use fastgrep::walker::entry_action;
use fastgrep::walker::glob_matches;
use fastgrep::walker::passes_filter;
use fastgrep::walker::seed_action;
use fastgrep::walker::size_limit;

fn env() -> ResolveEnv {
    ResolveEnv {
        pattern_file_contents: Vec::new(),
        exclude_from_contents: Vec::new(),
        stdin_is_pipe: true,
        stdout_is_terminal: false,
        available_parallelism: Some(8),
        no_limit_var: None,
    }
}

fn config_for(patterns: &[&str], setup: impl FnOnce(&mut Cli)) -> ResolvedConfig {
    let mut cli = Cli::default();
    for p in patterns {
        cli.patterns.push(p.to_string());
    }
    setup(&mut cli);
    cli.resolve(&env())
}

fn pattern_for(patterns: &[&str], setup: impl FnOnce(&mut Cli)) -> CompiledPattern {
    CompiledPattern::compile(&config_for(patterns, setup)).unwrap()
}

fn text_config() -> OutputConfig {
    OutputConfig::from_config(&config_for(&["x"], |_| {}))
}

fn lines_of(ms: &[LineMatch]) -> Vec<(u32, String, u64)> {
    ms.iter().map(|m| (m.line_no, String::from_utf8(m.line.clone()).unwrap(), m.byte_offset)).collect()
}

// ---------------------------------------------------------------- options

#[test]
fn resolve_positional_pattern_and_default_path() {
    let mut cli = Cli::default();
    cli.pattern = Some("TODO".to_string());
    let mut e = env();
    e.stdin_is_pipe = false;
    let c = cli.resolve(&e);
    assert_eq!(c.patterns, vec!["TODO".to_string()]);
    assert_eq!(c.paths, vec![b".".to_vec()]);
    assert!(!c.stdin);
    assert_eq!(c.threads, 8);
    assert_eq!(c.group_separator, Some("--".to_string()));
    assert!(!c.color);
}

#[test]
fn resolve_pattern_becomes_path_with_e() {
    let mut cli = Cli::default();
    cli.pattern = Some("src".to_string());
    cli.patterns.push("fn main".to_string());
    cli.recursive = true;
    let c = cli.resolve(&env());
    assert_eq!(c.patterns, vec!["fn main".to_string()]);
    assert_eq!(c.paths, vec![b"src".to_vec()]);
    assert!(c.multi_file);
    assert!(!c.stdin);
}

#[test]
fn resolve_reads_pattern_and_exclude_files() {
    let mut cli = Cli::default();
    cli.pattern_file.push(b"p.txt".to_vec());
    cli.exclude_from.push(b"x.txt".to_vec());
    cli.exclude.push("*.log".to_string());
    let mut e = env();
    e.pattern_file_contents = vec![Some("alpha\n\nbeta\r\n".to_string()), None];
    e.exclude_from_contents = vec![Some("  *.tmp \n\n\t*.bak\n".to_string())];
    let c = cli.resolve(&e);
    assert_eq!(c.patterns, vec!["alpha".to_string(), String::new(), "beta".to_string()]);
    assert_eq!(c.exclude, vec!["*.log".to_string(), "*.tmp".to_string(), "*.bak".to_string()]);
    assert!(c.stdin);
}

#[test]
fn resolve_flags() {
    let mut cli = Cli::default();
    cli.pattern = Some("x".to_string());
    cli.ignore_case = true;
    cli.no_ignore_case = true;
    cli.context = Some(3);
    cli.before_context = Some(1);
    cli.color = ColorMode::Auto;
    cli.threads = 2;
    cli.max_count = Some(5);
    cli.json = true;
    let mut e = env();
    e.stdout_is_terminal = true;
    e.no_limit_var = Some("1".to_string());
    let c = cli.resolve(&e);
    assert!(!c.ignore_case);
    assert_eq!(c.after_context, 3);
    assert_eq!(c.before_context, 1);
    assert!(c.color);
    assert_eq!(c.threads, 2);
    assert_eq!(c.max_count, 5);
    assert!(c.no_limit);
    assert_eq!(c.output_mode, OutputMode::Json);
}

#[test]
fn resolve_only_matching_drops_context_and_separator_options() {
    let mut cli = Cli::default();
    cli.pattern = Some("x".to_string());
    cli.only_matching = true;
    cli.context = Some(2);
    cli.no_group_separator = true;
    let mut e = env();
    e.available_parallelism = None;
    let c = cli.resolve(&e);
    assert_eq!(c.after_context, 0);
    assert_eq!(c.before_context, 0);
    assert_eq!(c.group_separator, None);
    assert_eq!(c.threads, 4);
}

#[test]
fn option_defaults() {
    let cli = Cli::default();
    assert_eq!(cli.threads, 0);
    assert_eq!(cli.max_line_len, 15000);
    assert_eq!(cli.max_file_size, 104857600);
    assert!(matches!(cli.color, ColorMode::Auto));
    assert!(cli.pattern.is_none());
}

// ---------------------------------------------------------------- patterns

#[test]
fn literal_detection() {
    assert!(is_literal("hello world"));
    assert!(!is_literal("a.c"));
    assert!(!is_literal("a|b"));
    assert!(is_literal(""));
}

#[test]
fn exclude_file_lines_are_trimmed_of_unicode_white_space() {
    let mut cli = Cli::default();
    cli.pattern = Some("x".to_string());
    let mut e = env();
    e.exclude_from_contents = vec![Some("\u{3000}*.log\u{a0}\n \t\n\u{2009}*.tmp\r\nkeep\u{200b}\n".to_string()), None];
    let c = cli.resolve(&e);
    assert_eq!(c.exclude, vec!["*.log".to_string(), "*.tmp".to_string(), "keep\u{200b}".to_string()]);
}

#[test]
fn json_string_escapes() {
    let mut out = Vec::new();
    write_json_path(&mut out, b"a\"b\\c\td\x01\x1f\x7f/\xc3\xa9\n\x08\x0c\r", true).unwrap();
    assert_eq!(
        String::from_utf8(out).unwrap(),
        "{\"type\":\"path\",\"path\":\"a\\\"b\\\\c\\td\\u0001\\u001f\u{7f}/\u{e9}\\n\\b\\f\\r\",\"matched\":true}\n"
    );
}

#[test]
fn top_level_alternation() {
    assert!(has_top_level_alternation("a|b"));
    assert!(!has_top_level_alternation("(a|b)c"));
    assert!(!has_top_level_alternation("\\|x"));
    assert!(has_top_level_alternation("[(]|x"));
    assert!(!has_top_level_alternation("[|]"));
    assert!(!has_top_level_alternation("[]|]"));
    assert!(!has_top_level_alternation("[^]|]"));
    assert!(has_top_level_alternation("[a[b]c]|x"));
    assert!(has_top_level_alternation("x(a)|b"));
}

#[test]
fn literal_prefix_extraction() {
    assert_eq!(extract_literal_prefix("impl\\s+Drop"), "impl");
    assert_eq!(extract_literal_prefix("foo|bar"), "");
    assert_eq!(extract_literal_prefix(".*x"), "");
    assert_eq!(extract_literal_prefix("abc?"), "ab");
    assert_eq!(extract_literal_prefix("abc*d"), "ab");
    assert_eq!(extract_literal_prefix("abc{0,2}"), "ab");
    assert_eq!(extract_literal_prefix("abc{,2}"), "ab");
    assert_eq!(extract_literal_prefix("abc{2}"), "abc");
    assert_eq!(extract_literal_prefix("abc+"), "abc");
    assert_eq!(extract_literal_prefix("ab\\.?c"), "ab");
    assert_eq!(extract_literal_prefix("[(]|xyz"), "");
}

#[test]
fn optional_last_character_does_not_hide_matches() {
    let p = pattern_for(&["abc?"], |_| {});
    let r = search_input(b"ab\nabc\nxy\n", &p, false, false, false);
    assert_eq!(lines_of(&r.matches), vec![(1, "ab".to_string(), 0), (2, "abc".to_string(), 3)]);
    let r = search_input(b"ab\nabc\nxy\n", &p, false, false, true);
    assert_eq!(r.matches.len(), 2);
    let r = search_input(b"ab\nabc\nxy\n", &p, true, false, true);
    assert_eq!(r.matches.len(), 1);
}

#[test]
fn empty_input_has_no_lines() {
    let p = pattern_for(&["x"], |_| {});
    assert!(search_input(b"", &p, true, false, false).matches.is_empty());
    assert!(search_input(b"", &p, true, false, true).matches.is_empty());
    let r = search_input(b"\n", &p, true, false, false);
    assert_eq!(lines_of(&r.matches), vec![(1, String::new(), 0)]);
    let any = pattern_for(&["x*"], |_| {});
    assert!(search_input(b"", &any, false, false, false).matches.is_empty());
    let blank = pattern_for(&["^$"], |_| {});
    assert!(search_input(b"", &blank, false, false, false).matches.is_empty());
    assert_eq!(search_input(b"\n", &blank, false, false, false).matches.len(), 1);
    let mut oc = text_config();
    oc.count = true;
    let mut out = Vec::new();
    let (n, _) = stream_file_contents(b"f", b"", &p, true, &oc, &mut out, 1).unwrap();
    assert_eq!(n, 0);
    assert_eq!(out, b"0\n");
    let mut oc = text_config();
    oc.files_with_matches = true;
    let mut out = Vec::new();
    stream_file_contents(b"f", b"", &any, false, &oc, &mut out, 1).unwrap();
    assert_eq!(out, b"");
    let mut out = Vec::new();
    stream_file_contents(b"f", b"", &p, true, &oc, &mut out, 1).unwrap();
    assert_eq!(out, b"");
    let oc = text_config();
    let mut out = Vec::new();
    let (n, _) = stream_file_contents(b"f", b"", &p, true, &oc, &mut out, 1).unwrap();
    assert_eq!(n, 0);
    assert_eq!(out, b"");
}

fn grep_binary(oc: &OutputConfig) -> (usize, String, bool) {
    let p = pattern_for(&["ab"], |_| {});
    let mut out = Vec::new();
    let (k, o) = grep_file(b"f", b"ab\0cd\nab\nxy\n", &p, false, oc, &mut out, 1).unwrap();
    (k, String::from_utf8(out).unwrap(), matches!(o, FormatOutcome::BinaryFileMatches))
}

#[test]
fn binary_file_with_whole_result_output_is_decided_as_a_whole() {
    let mut oc = text_config();
    oc.only_matching = true;
    assert_eq!(grep_binary(&oc), (1, String::new(), true));
    let mut oc = text_config();
    oc.max_count = 1;
    assert_eq!(grep_binary(&oc), (1, String::new(), true));
    let mut oc = text_config();
    oc.count = true;
    oc.max_count = 1;
    assert_eq!(grep_binary(&oc), (2, "1\n".to_string(), false));
    let mut oc = text_config();
    oc.count = true;
    oc.mode = OutputMode::Json;
    assert_eq!(grep_binary(&oc), (2, "{\"type\":\"summary\",\"path\":\"f\",\"count\":2}\n".to_string(), false));
    let mut oc = text_config();
    oc.files_with_matches = true;
    oc.mode = OutputMode::Json;
    assert_eq!(grep_binary(&oc), (1, "{\"type\":\"path\",\"path\":\"f\",\"matched\":true}\n".to_string(), false));
}

#[test]
fn text_option_searches_binary_file_as_text() {
    let mut oc = text_config();
    oc.text = true;
    oc.only_matching = true;
    assert_eq!(grep_binary(&oc), (2, "ab\nab\n".to_string(), false));
    let mut oc = text_config();
    oc.text = true;
    assert_eq!(grep_binary(&oc), (2, "ab\0cd\nab\n".to_string(), false));
    let mut oc = text_config();
    oc.text = true;
    oc.count = true;
    assert_eq!(grep_binary(&oc), (2, "2\n".to_string(), false));
    let oc = text_config();
    assert_eq!(grep_binary(&oc), (1, String::new(), true));
}

#[test]
fn output_kept_and_exit_status() {
    let oc = text_config();
    assert!(!keeps_output(0, &oc));
    assert!(keeps_output(3, &oc));
    let mut counting = text_config();
    counting.count = true;
    assert!(keeps_output(0, &counting));
    assert_eq!(exit_status(true), 0);
    assert_eq!(exit_status(false), 1);
    assert_eq!(total_count(&[2, 0, 5]), 7);
    assert_eq!(total_count(&[]), 0);
    assert_eq!(total_count(&[usize::MAX, 1]), usize::MAX);
}

#[test]
fn list_inverted_skips_file_whose_lines_all_match() {
    let p = pattern_for(&["a"], |_| {});
    let mut oc = text_config();
    oc.files_with_matches = true;
    oc.multi_file = true;
    let mut out = Vec::new();
    let (n, _) = stream_file_contents(b"f", b"a\na\na\n", &p, true, &oc, &mut out, 1).unwrap();
    assert_eq!(n, 0);
    assert_eq!(out, b"");
}

#[test]
fn hex_formatting() {
    assert_eq!(format_hex16(0), "0000000000000000");
    assert_eq!(format_hex16(0xdead_beef), "00000000deadbeef");
    assert_eq!(format_hex16(u64::MAX), "ffffffffffffffff");
}

#[test]
fn compile_reports_invalid_regex() {
    let c = config_for(&["a("], |_| {});
    assert!(CompiledPattern::compile(&c).is_err());
    let fixed = config_for(&["a("], |c| c.fixed_strings = true);
    assert!(CompiledPattern::compile(&fixed).is_ok());
}

#[test]
fn cache_key_depends_on_flags() {
    let a = pattern_for(&["abc"], |_| {});
    let b = pattern_for(&["abc"], |c| c.ignore_case = true);
    assert_eq!(a.cache_key.len(), 16);
    assert_ne!(a.cache_key, b.cache_key);
}

#[test]
fn required_trigrams_of_literal() {
    let p = pattern_for(&["abcab"], |_| {});
    let mut t = p.required_trigrams();
    t.sort();
    assert_eq!(t, vec![*b"abc", *b"bca", *b"cab"]);
    let short = pattern_for(&["ab"], |_| {});
    assert!(short.required_trigrams().is_empty());
}

// ---------------------------------------------------------------- search

#[test]
fn literal_search_reports_each_line_once() {
    let p = pattern_for(&["ab"], |_| {});
    let r = search_input(b"abab\nxx\nab\n", &p, false, true, false);
    assert_eq!(lines_of(&r.matches), vec![(1, "abab".to_string(), 0), (3, "ab".to_string(), 8)]);
    assert_eq!(r.matches[0].match_ranges, vec![0..2, 2..4]);
}

#[test]
fn count_law_on_concrete_input() {
    // -c counts the lines a search reports, with or without ranges.
    let p = pattern_for(&["o"], |_| {});
    let data = b"one\ntwo\nthree\nfour\n";
    let counted = search_input(data, &p, false, false, true).matches.len();
    let shown = search_input(data, &p, false, true, false).matches.len();
    assert_eq!(counted, 3);
    assert_eq!(counted, shown);
}

#[test]
fn invert_complement_on_concrete_input() {
    for pat in ["a", "^b", "impl\\s+x", ""] {
        let p = pattern_for(&[pat], |_| {});
        let data = b"a\nb\nimpl  x\n\nab\n";
        let yes = search_input(data, &p, false, false, true).matches.len();
        let no = search_input(data, &p, true, false, true).matches.len();
        assert_eq!(yes + no, 5, "pattern {pat}");
    }
}

#[test]
fn binary_file_yields_placeholder() {
    let p = pattern_for(&["a"], |_| {});
    let r = search_file_contents(b"f.bin", b"a\0b\n", &p, false, false, false);
    assert!(r.is_binary);
    assert_eq!(r.matches.len(), 1);
    assert!(r.matches[0].line.is_empty());
    assert!(is_binary(b"x\0"));
    assert!(!is_binary(b"plain text"));
}

#[test]
fn strip_terminator_drops_one_newline() {
    assert_eq!(strip_line_terminator(b"a\n\n"), b"a\n");
    assert_eq!(strip_line_terminator(b"a"), b"a");
}

#[test]
fn stream_writes_numbered_lines_with_file_name() {
    let p = pattern_for(&["b"], |_| {});
    let mut oc = text_config();
    oc.multi_file = true;
    oc.line_number = true;
    let mut out = Vec::new();
    let (n, _) = stream_file_contents(b"f.txt", b"a\nb\nbb\n", &p, false, &oc, &mut out, 1)
        .unwrap();
    assert_eq!(n, 2);
    assert_eq!(String::from_utf8(out).unwrap(), "f.txt:2:b\nf.txt:3:bb\n");
}

#[test]
fn stream_counts_and_lists() {
    let p = pattern_for(&["b"], |_| {});
    let mut oc = text_config();
    oc.count = true;
    oc.multi_file = true;
    let mut out = Vec::new();
    stream_file_contents(b"f", b"a\nb\n", &p, false, &oc, &mut out, 1).unwrap();
    assert_eq!(out, b"f:1\n");
    let mut oc = text_config();
    oc.files_with_matches = true;
    let mut out = Vec::new();
    stream_file_contents(b"f", b"b\nb\n", &p, true, &oc, &mut out, 1).unwrap();
    assert_eq!(out, b"");
    let mut out = Vec::new();
    stream_file_contents(b"f", b"b\na\n", &p, true, &oc, &mut out, 1).unwrap();
    assert_eq!(out, b"f\n");
}

// ---------------------------------------------------------------- output

#[test]
fn colored_line_with_highlight() {
    let mut oc = text_config();
    oc.color = true;
    oc.line_number = true;
    let mut out = Vec::new();
    write_line_match(&mut out, &oc, None, 7, 0, b"a bc", &[2..3], 1).unwrap();
    assert_eq!(out, b"\x1b[32m7\x1b[0m\x1b[36m:\x1b[0ma \x1b[01;31mb\x1b[0mc\n".to_vec());
}

#[test]
fn long_lines_are_truncated() {
    let mut oc = text_config();
    oc.max_line_len = 3;
    let mut out = Vec::new();
    write_line_match(&mut out, &oc, None, 1, 0, b"abcdef", &[], 1).unwrap();
    assert_eq!(out, b"abc [truncated, see grep --help for --max-line-len]\n".to_vec());
}

#[test]
fn initial_tab_pads_line_numbers() {
    let mut oc = text_config();
    oc.line_number = true;
    oc.initial_tab = true;
    let mut out = Vec::new();
    write_line_match(&mut out, &oc, None, 7, 0, b"x", &[], 3).unwrap();
    assert_eq!(out, b"  7:\tx\n".to_vec());
    assert_eq!(field_width(12345), 5);
    assert_eq!(TAB_FIELD_WIDTH_STDIN, 19);
}

#[test]
fn group_separator_output() {
    let mut out = Vec::new();
    write_group_separator(&mut out, &text_config());
    assert_eq!(out, b"--\n");
}

#[test]
fn json_records() {
    let mut out = Vec::new();
    write_json_match(&mut out, Some(b"a \"q\".txt"), 3, 10, b"xy\tz", &[1..2], 0).unwrap();
    assert_eq!(
        String::from_utf8(out).unwrap(),
        "{\"type\":\"match\",\"path\":\"a \\\"q\\\".txt\",\"line_number\":3,\"absolute_offset\":10,\
         \"lines\":{\"text\":\"xy\\tz\"},\"submatches\":[{\"match\":{\"text\":\"y\"},\"start\":1,\"end\":2}],\
         \"truncated\":false}\n"
    );
    let mut out = Vec::new();
    write_json_only_matching(&mut out, None, 1, 0, b"abc", 2).unwrap();
    assert_eq!(
        String::from_utf8(out).unwrap(),
        "{\"type\":\"match\",\"line_number\":1,\"absolute_offset\":0,\"lines\":{\"text\":\"ab\"},\
         \"submatches\":[{\"match\":{\"text\":\"ab\"},\"start\":0,\"end\":2}],\"truncated\":true}\n"
    );
    let mut out = Vec::new();
    write_json_context(&mut out, Some(b"\xff.txt"), 2, 4, b"c", 0).unwrap();
    assert_eq!(
        String::from_utf8(out).unwrap(),
        "{\"type\":\"context\",\"path\":\"\u{fffd}.txt\",\"line_number\":2,\"absolute_offset\":4,\
         \"lines\":{\"text\":\"c\"},\"truncated\":false}\n"
    );
    let mut out = Vec::new();
    write_json_path(&mut out, b"p", true).unwrap();
    write_json_summary(&mut out, None, 4).unwrap();
    write_json_size_limit_warning(&mut out, b"big", 10, 5).unwrap();
    assert_eq!(
        String::from_utf8(out).unwrap(),
        "{\"type\":\"path\",\"path\":\"p\",\"matched\":true}\n{\"type\":\"summary\",\"count\":4}\n\
         {\"type\":\"warning\",\"kind\":\"size_limit\",\"path\":\"big\",\"size_bytes\":10,\"max_file_size\":5}\n"
    );
}

#[test]
fn output_config_helpers() {
    let mut oc = text_config();
    assert!(!oc.is_json());
    assert!(!oc.requires_match_ranges());
    oc.only_matching = true;
    assert!(oc.requires_match_ranges());
    let json = OutputConfig::from_config(&config_for(&["x"], |c| c.json = true));
    assert!(json.is_json());
    assert!(json.requires_match_ranges());
}

#[test]
fn format_count_of_result() {
    let p = pattern_for(&["a"], |_| {});
    let r = search_file_contents(b"f", b"a\nb\na\n", &p, false, false, true);
    let mut oc = text_config();
    oc.count = true;
    let mut out = Vec::new();
    format_result(&r, &oc, &mut out, 1).unwrap();
    assert_eq!(out, b"2\n");
}

// ---------------------------------------------------------------- chunks

#[test]
fn chunks_cut_after_newlines() {
    let data = b"aaaa\nbb\ncccccc\nd";
    let chunks = split_at_newlines(data, 3);
    assert_eq!(chunks, vec![(0, 8), (8, 15), (15, 16)]);
    let one = split_at_newlines(data, 1);
    assert_eq!(one, vec![(0, 16)]);
    assert!(split_at_newlines(b"", 4).is_empty());
}

#[test]
fn chunked_search_equals_whole_search() {
    let data = b"alpha\nbeta\nalphabet\n\ngamma alpha\nend";
    for (pat, invert) in [("alpha", false), ("a$", false), ("^$", false), ("alpha", true)] {
        let p = pattern_for(&[pat], |_| {});
        let d = strip_line_terminator(data);
        for n in 1..6 {
            let chunks = split_at_newlines(d, n);
            let stops = chunk_stops(d, &chunks);
            let first = chunk_first_lines(d, &chunks);
            let parts: Vec<ChunkMatches> = (0..chunks.len())
                .map(|i| search_chunk(d, chunks[i].0, stops[i], first[i], &p, invert, true))
                .collect();
            let merged = merge_chunk_matches(parts);
            let whole = search_input(data, &p, invert, true, false).matches;
            assert_eq!(lines_of(&merged), lines_of(&whole), "{pat} {invert} {n}");
            let counted: usize = (0..chunks.len()).map(|i| count_chunk(d, chunks[i].0, stops[i], &p, invert)).sum();
            assert_eq!(counted, whole.len());
            let mut oc = text_config();
            oc.color = true;
            oc.line_number = true;
            let parts: Vec<ChunkMatches> = (0..chunks.len())
                .map(|i| search_chunk(d, chunks[i].0, stops[i], first[i], &p, invert, true))
                .collect();
            let mut chunked_out = Vec::new();
            let k = write_chunk_matches(&mut chunked_out, &oc, None, parts, 2).unwrap();
            let mut streamed_out = Vec::new();
            let (n_streamed, _) = stream_file_contents(b"f", data, &p, invert, &oc, &mut streamed_out, 2).unwrap();
            assert_eq!(k, n_streamed);
            assert_eq!(chunked_out, streamed_out, "{pat} {invert} {n}");
        }
    }
}

#[test]
fn chunked_work_only_for_large_text() {
    let oc = text_config();
    let small = vec![b'a'; 10];
    assert_eq!(chunked_work(&small, &oc, 8), None);
    let mut big = vec![b'a'; 4 * 1024 * 1024];
    assert_eq!(chunked_work(&big, &oc, 8), Some(ChunkedWork::Search));
    assert_eq!(chunked_work(&big, &oc, 1), None);
    let mut counting = text_config();
    counting.count = true;
    assert_eq!(chunked_work(&big, &counting, 8), Some(ChunkedWork::Count));
    big[5] = 0;
    assert_eq!(chunked_work(&big, &oc, 8), None);
}

// ---------------------------------------------------------------- walker

#[test]
fn globs() {
    assert!(glob_matches("*.rs", "main.rs"));
    assert!(!glob_matches("*.rs", "main.rsx"));
    assert!(glob_matches("Make*", "Makefile"));
    assert!(glob_matches("Makefile", "Makefile"));
    assert!(!glob_matches("Makefile", "makefile"));
    assert!(glob_matches("*", "anything"));
}

#[test]
fn filters() {
    let inc = vec!["*.rs".to_string()];
    let exc = vec!["test_*".to_string()];
    assert!(passes_filter(&inc, &exc, "lib.rs"));
    assert!(!passes_filter(&inc, &exc, "test_lib.rs"));
    assert!(!passes_filter(&inc, &exc, "lib.py"));
    assert!(passes_filter(&[], &exc, "lib.py"));
}

#[test]
fn walk_decisions() {
    let limit = 100;
    assert_eq!(seed_action(true, Some(101), limit, false), WalkAction::SkipTooLarge(101));
    assert_eq!(seed_action(true, Some(100), limit, false), WalkAction::Search);
    assert_eq!(seed_action(true, None, limit, false), WalkAction::Search);
    assert_eq!(seed_action(false, None, limit, true), WalkAction::Descend);
    assert_eq!(seed_action(false, None, limit, false), WalkAction::Ignore);
    let none: Vec<String> = Vec::new();
    let target = vec!["target".to_string()];
    assert_eq!(entry_action(EntryKind::Directory, "target", None, &none, &none, &target, limit), WalkAction::Ignore);
    assert_eq!(entry_action(EntryKind::Directory, "src", None, &none, &none, &target, limit), WalkAction::Descend);
    assert_eq!(entry_action(EntryKind::File, "a", Some(500), &none, &none, &none, limit), WalkAction::SkipTooLarge(500));
    assert_eq!(entry_action(EntryKind::File, "a", Some(500), &none, &none, &none, u64::MAX), WalkAction::Search);
    assert_eq!(entry_action(EntryKind::Other, "a", None, &none, &none, &none, limit), WalkAction::Ignore);
    let no_limit = config_for(&["x"], |_| {});
    assert_eq!(size_limit(&no_limit), 104857600);
}

// ---------------------------------------------------------------- cache

fn record(path: &str, size: u64, lines: Vec<u32>) -> CacheRecord {
    CacheRecord {
        path: path.as_bytes().to_vec(),
        identity: FileIdentity { mtime_s: 1, mtime_ns: 2, size },
        entry: CacheEntry { line_nos: lines, offsets: Vec::new() },
    }
}

#[test]
fn cache_lookup_uses_latest_record_and_identity() {
    let idx = CacheIndex::new(b"/tmp/c".to_vec(), vec![record("a", 5, vec![1]), record("b", 6, vec![2]), record("a", 7, vec![3])]);
    let now = Some(FileIdentity { mtime_s: 1, mtime_ns: 2, size: 7 });
    assert_eq!(idx.lookup(b"a", now).unwrap().line_nos, vec![3]);
    let old = Some(FileIdentity { mtime_s: 1, mtime_ns: 2, size: 5 });
    assert!(idx.lookup(b"a", old).is_none());
    assert!(idx.lookup(b"a", None).is_none());
    assert!(idx.lookup(b"c", now).is_none());
    assert_eq!(idx.cache_dir(), &b"/tmp/c".to_vec());
}

// ---------------------------------------------------------------- trigram index

fn stamp(size: u64) -> FileStamp {
    FileStamp { mtime_s: 10, mtime_ns: 0, size }
}

fn sample_index() -> TrigramIndex {
    let mut idx = TrigramIndex::new(b"/r".to_vec());
    assert!(idx.add_file(b"a.txt".to_vec(), stamp(1), b"hello world"));
    assert!(idx.add_file(b"b.txt".to_vec(), stamp(2), b"say hello"));
    assert!(!idx.add_file(b"c.bin".to_vec(), stamp(3), b"hello\0"));
    assert!(idx.add_file(b"d.txt".to_vec(), stamp(4), b"nothing"));
    idx
}

#[test]
fn candidates_are_files_with_every_trigram() {
    let idx = sample_index();
    assert_eq!(idx.file_count(), 3);
    let p = pattern_for(&["hello"], |_| {});
    let c = idx.candidate_files(&p.required_trigrams());
    assert_eq!(c, vec![b"a.txt".to_vec(), b"b.txt".to_vec()]);
    assert_eq!(idx.candidate_files(&[*b"zzz"]), Vec::<Vec<u8>>::new());
    assert_eq!(idx.candidate_files(&[]).len(), 3);
}

#[test]
fn optional_character_is_not_required() {
    let idx = sample_index();
    let p = pattern_for(&["say hellx?"], |_| {});
    let c = idx.candidate_files(&p.required_trigrams());
    assert_eq!(c, vec![b"b.txt".to_vec()]);
    let p = pattern_for(&["abc?"], |_| {});
    assert!(p.required_trigrams().is_empty());
}

#[test]
fn file_containing_needle_is_candidate() {
    let idx = sample_index();
    for needle in ["hello", "world", "lo w", "say h", "nothing"] {
        let p = pattern_for(&[needle], |c| c.fixed_strings = true);
        let c = idx.candidate_files(&p.required_trigrams());
        let expected: Vec<&[u8]> = [(&b"a.txt"[..], &b"hello world"[..]), (b"b.txt", b"say hello"), (b"d.txt", b"nothing")]
            .iter()
            .filter(|(_, d)| d.windows(needle.len()).any(|w| w == needle.as_bytes()))
            .map(|(p, _)| *p)
            .collect();
        for e in expected {
            assert!(c.iter().any(|x| x == e), "{needle}");
        }
    }
}

#[test]
fn stale_files_and_rebuild() {
    let idx = sample_index();
    let fresh = vec![Some(stamp(1)), Some(stamp(2)), Some(stamp(4))];
    assert!(idx.stale_files(&fresh).is_empty());
    assert!(!idx.needs_rebuild(&fresh));
    let changed = vec![Some(stamp(1)), None, Some(stamp(5))];
    assert_eq!(idx.stale_files(&changed), vec![b"b.txt".to_vec(), b"d.txt".to_vec()]);
    assert!(idx.needs_rebuild(&changed));
    assert!(!TrigramIndex::new(Vec::new()).needs_rebuild(&[]));
}

#[test]
fn rebuild_needs_more_than_a_tenth_stale() {
    let mut idx = TrigramIndex::new(Vec::new());
    for i in 0..10u64 {
        idx.add_file(format!("f{i}").into_bytes(), stamp(i), b"abc");
    }
    let mut now: Vec<Option<FileStamp>> = (0..10u64).map(|i| Some(stamp(i))).collect();
    now[0] = None;
    assert!(!idx.needs_rebuild(&now));
    now[1] = None;
    assert!(idx.needs_rebuild(&now));
}

#[test]
fn candidate_filter_decisions() {
    let idx = sample_index();
    let fresh = vec![Some(stamp(1)), Some(stamp(2)), Some(stamp(4))];
    let p = pattern_for(&["world"], |_| {});
    assert_eq!(idx.candidate_filter(&p.required_trigrams(), &fresh), Some(vec![b"a.txt".to_vec()]));
    // No trigrams: nothing to filter on.
    assert_eq!(idx.candidate_filter(&[], &fresh), None);
    // Every file is a candidate: too common to filter on.
    let mut all = TrigramIndex::new(Vec::new());
    all.add_file(b"x".to_vec(), stamp(1), b"help");
    assert_eq!(all.candidate_filter(&[*b"hel"], &[Some(stamp(1))]), None);
    // A changed file is searched whether or not it is a candidate.
    let mut ten = TrigramIndex::new(Vec::new());
    for i in 0..10u64 {
        let data: &[u8] = if i == 0 { b"world" } else { b"other" };
        ten.add_file(format!("f{i}").into_bytes(), stamp(i), data);
    }
    let mut now: Vec<Option<FileStamp>> = (0..10u64).map(|i| Some(stamp(i))).collect();
    now[5] = Some(stamp(99));
    assert_eq!(ten.candidate_filter(&[*b"wor"], &now), Some(vec![b"f0".to_vec(), b"f5".to_vec()]));
    // Too many changed files: the index needs a rebuild, no filtering.
    now[6] = None;
    assert_eq!(ten.candidate_filter(&[*b"wor"], &now), None);
}

#[test]
fn index_parts_round_trip_and_validation() {
    let idx = sample_index();
    let files: Vec<FileRecord> = idx
        .files()
        .iter()
        .map(|f| FileRecord { path: f.path.clone(), mtime_s: f.mtime_s, mtime_ns: f.mtime_ns, size: f.size })
        .collect();
    let postings: Vec<((u8, u8, u8), Vec<u32>)> = idx.postings().iter().map(|(k, v)| (*k, v.clone())).collect();
    let back = TrigramIndex::from_parts(files, postings.clone(), idx.root().clone()).unwrap();
    assert_eq!(back.file_count(), 3);
    assert_eq!(back.postings(), idx.postings());
    let mk = || vec![FileRecord { path: b"a".to_vec(), mtime_s: 0, mtime_ns: 0, size: 0 }];
    assert!(TrigramIndex::from_parts(mk(), vec![((1, 2, 3), vec![1])], Vec::new()).is_none());
    assert!(TrigramIndex::from_parts(mk(), vec![((1, 2, 3), vec![0, 0])], Vec::new()).is_none());
    assert!(TrigramIndex::from_parts(mk(), vec![((1, 2, 3), vec![0]), ((1, 2, 3), vec![0])], Vec::new()).is_none());
    assert!(TrigramIndex::from_parts(mk(), vec![((1, 2, 3), vec![0])], Vec::new()).is_some());
    let map: BTreeMap<(u8, u8, u8), Vec<u32>> = postings.into_iter().collect();
    assert_eq!(&map, idx.postings());
}

#[test]
fn eviction_removes_oldest_until_under_limit() {
    let info = |size, s| StoredIndexInfo { size, mtime_s: s, mtime_ns: 0 };
    let dirs = vec![info(50, 3), info(40, 1), info(30, 2), info(20, 1)];
    assert_eq!(eviction_plan(&dirs, 140), Vec::<usize>::new());
    assert_eq!(eviction_plan(&dirs, 100), vec![1]);
    assert_eq!(eviction_plan(&dirs, 80), vec![1, 3]);
    assert_eq!(eviction_plan(&dirs, 0), vec![1, 3, 2, 0]);
}

#[test]
fn literal_and_regex_paths_agree() {
    // The literal scan selects the lines a per-line check selects.
    let data = b"xab\nba\nabab\n\nab";
    let literal = pattern_for(&["ab"], |_| {});
    let regex = pattern_for(&["a[b]"], |_| {});
    let a = search_input(data, &literal, false, false, false);
    let b = search_input(data, &regex, false, false, false);
    assert_eq!(lines_of(&a.matches), lines_of(&b.matches));
    assert_eq!(a.matches.len(), 3);
}

#[test]
fn prefix_and_regex_paths_agree() {
    // The prefix-accelerated search selects the lines the regex accepts.
    let data = b"impl  Drop\nimplDrop\nx impl\tDrop\nDrop impl\n";
    let with_prefix = pattern_for(&["impl\\s+Drop"], |_| {});
    let without_prefix = pattern_for(&["(impl)\\s+Drop"], |_| {});
    let a = search_input(data, &with_prefix, false, true, false);
    let b = search_input(data, &without_prefix, false, true, false);
    assert_eq!(lines_of(&a.matches), lines_of(&b.matches));
    assert_eq!(a.matches.len(), 2);
}

#[test]
fn regex_match_ranges() {
    let p = pattern_for(&["[0-9]+"], |_| {});
    let r = search_input(b"a12b345\nxyz\n", &p, false, true, false);
    assert_eq!(r.matches.len(), 1);
    assert_eq!(r.matches[0].match_ranges, vec![1..3, 4..7]);
}
