//! Compilation of the search pattern: the regular expression that is built
//! from the user's patterns and flags, the literal fast path, and the literal
//! prefix used to find candidate lines.

use crate::cli::ResolvedConfig;
use crate::finder::LiteralFinder;
use crate::finder::contains;
use crate::regex_engine::RegexMatcher;
use crate::regex_engine::regex_builds;
use crate::regex_engine::regex_is_match;
use crate::text::chars_of;
use crate::text::push_char;
use crate::text::push_str;
use crate::text::string_from_chars;
use std::collections::hash_map::DefaultHasher;
use std::hash::Hasher;
use vstd::prelude::*;
use vstd::utf8::encode_utf8;

verus! {

/// Characters that end a literal run in a pattern (the backslash is handled
/// on its own).
pub open spec fn is_meta(c: char) -> bool {
    c == '.' || c == '*' || c == '+' || c == '?' || c == '(' || c == ')' || c == '['
        || c == ']' || c == '{' || c == '}' || c == '|' || c == '^' || c == '$'
}

/// Characters whose presence makes a pattern a regular expression.
pub open spec fn is_regex_char(c: char) -> bool {
    is_meta(c) || c == '\\'
}

/// Characters that `regex::escape` prefixes with a backslash.
pub open spec fn is_escaped_by_regex(c: char) -> bool {
    c == '\\' || c == '.' || c == '+' || c == '*' || c == '?' || c == '(' || c == ')'
        || c == '|' || c == '[' || c == ']' || c == '{' || c == '}' || c == '^' || c == '$'
        || c == '#' || c == '&' || c == '-' || c == '~'
}

/// `regex::escape`: every special character is preceded by a backslash.
pub open spec fn spec_escape(s: Seq<char>) -> Seq<char>
    decreases s.len(),
{
    if s.len() == 0 {
        Seq::empty()
    } else if is_escaped_by_regex(s.last()) {
        spec_escape(s.drop_last()).push('\\').push(s.last())
    } else {
        spec_escape(s.drop_last()).push(s.last())
    }
}

/// `regex::escape`.
#[verifier::external_body]
pub(crate) fn regex_escape(s: &str) -> (r: String)
    ensures
        r@ == spec_escape(s@),
{
    regex::escape(s)
}

/// A pattern is literal when it holds none of the regex characters.
pub open spec fn spec_is_literal(s: Seq<char>) -> bool {
    forall|i: int| 0 <= i < s.len() ==> !is_regex_char(#[trigger] s[i])
}

/// Where the items of a bracket class opened just before `j` begin: after
/// an optional `^`, and after a `]` that comes first, which the regex syntax
/// reads as a literal `]`.
pub open spec fn class_body_start(s: Seq<char>, j: int) -> int {
    let k = if 0 <= j < s.len() && s[j] == '^' { j + 1 } else { j };
    if 0 <= k < s.len() && s[k] == ']' { k + 1 } else { k }
}

/// Whether `s[i..]` holds a `|` outside of any group and any bracket class,
/// the scan being inside `depth` unclosed groups and `class` nested bracket
/// classes. A backslash escapes the character after it.
pub open spec fn top_level_bar_from(s: Seq<char>, i: int, depth: nat, class: nat) -> bool
    decreases s.len() + 1 - i,
{
    if i < 0 || i >= s.len() {
        false
    } else if s[i] == '\\' {
        top_level_bar_from(s, i + 2, depth, class)
    } else if s[i] == '[' {
        let k = class_body_start(s, i + 1);
        top_level_bar_from(s, k, depth, class + 1)
    } else if class > 0 {
        if s[i] == ']' {
            top_level_bar_from(s, i + 1, depth, (class - 1) as nat)
        } else {
            top_level_bar_from(s, i + 1, depth, class)
        }
    } else if s[i] == '(' {
        top_level_bar_from(s, i + 1, depth + 1, class)
    } else if s[i] == ')' {
        top_level_bar_from(s, i + 1, if depth == 0 { 0 } else { (depth - 1) as nat }, class)
    } else if s[i] == '|' && depth == 0 {
        true
    } else {
        top_level_bar_from(s, i + 1, depth, class)
    }
}

/// The pattern holds a `|` outside of any group and any bracket class.
pub open spec fn spec_has_top_level_alternation(s: Seq<char>) -> bool {
    top_level_bar_from(s, 0, 0, 0)
}

/// A quantifier at `j` that lets the item before it occur zero times: `?`,
/// `*`, or a counted repetition whose minimum is written as `0` or left out.
pub open spec fn optional_at(s: Seq<char>, j: int) -> bool {
    0 <= j < s.len() && (s[j] == '?' || s[j] == '*'
        || (s[j] == '{' && j + 1 < s.len() && (s[j + 1] == '0' || s[j + 1] == ',')))
}

/// The literal characters at the start of `s[i..]`: plain characters and
/// escaped regex characters, up to the first regex construct and without a
/// character that a quantifier makes optional.
pub open spec fn literal_run_from(s: Seq<char>, i: int) -> Seq<char>
    decreases s.len() - i,
{
    if i < 0 || i >= s.len() || is_meta(s[i]) {
        Seq::empty()
    } else if s[i] == '\\' {
        if i + 1 < s.len() && is_regex_char(s[i + 1]) && !optional_at(s, i + 2) {
            seq![s[i + 1]].add(literal_run_from(s, i + 2))
        } else {
            Seq::empty()
        }
    } else if optional_at(s, i + 1) {
        Seq::empty()
    } else {
        seq![s[i]].add(literal_run_from(s, i + 1))
    }
}

/// The literal prefix of a pattern; empty when the pattern has a top-level
/// alternation, since no prefix is then common to all alternatives.
pub open spec fn spec_literal_prefix(s: Seq<char>) -> Seq<char> {
    if spec_has_top_level_alternation(s) {
        Seq::empty()
    } else {
        literal_run_from(s, 0)
    }
}

/// Returns `true` if the pattern contains no regex metacharacters.
pub fn is_literal(pattern: &str) -> (r: bool)
    ensures
        r == spec_is_literal(pattern@),
{
    let cs = chars_of(pattern);
    let n = cs.len();
    for i in 0..n
        invariant
            n == cs@.len(),
            cs@ == pattern@,
            forall|j: int| 0 <= j < i ==> !is_regex_char(#[trigger] cs@[j]),
    {
        let c = cs[i];
        if c == '.' || c == '*' || c == '+' || c == '?' || c == '(' || c == ')' || c == '['
            || c == ']' || c == '{' || c == '}' || c == '|' || c == '^' || c == '$' || c == '\\' {
            assert(is_regex_char(cs@[i as int]));
            return false;
        }
    }
    true
}

/// Where the items of the bracket class opened just before `j` begin.
fn class_items_start(cs: &Vec<char>, j: usize) -> (k: usize)
    requires
        j <= cs@.len(),
    ensures
        k == class_body_start(cs@, j as int),
        j <= k <= cs@.len(),
{
    let n = cs.len();
    let mut k = j;
    if k < n && cs[k] == '^' {
        k = k + 1;
    }
    if k < n && cs[k] == ']' {
        k = k + 1;
    }
    k
}

/// Returns `true` if the pattern contains `|` outside of any grouping: not
/// inside parentheses, not inside a bracket class, and not escaped.
pub fn has_top_level_alternation(pattern: &str) -> (r: bool)
    ensures
        r == spec_has_top_level_alternation(pattern@),
{
    let cs = chars_of(pattern);
    let n = cs.len();
    let mut depth: usize = 0;
    let mut class: usize = 0;
    let mut i: usize = 0;
    while i < n
        invariant
            n == cs@.len(),
            cs@ == pattern@,
            i <= n + 1,
            depth <= i,
            class <= i,
            top_level_bar_from(cs@, i as int, depth as nat, class as nat) == spec_has_top_level_alternation(pattern@),
        decreases n + 1 - i,
    {
        let c = cs[i];
        if c == '\\' {
            if i + 1 >= n {
                assert(!top_level_bar_from(cs@, i + 2, depth as nat, class as nat));
                return false;
            }
            i = i + 2;
        } else if c == '[' {
            let k = class_items_start(&cs, i + 1);
            class = class + 1;
            i = k;
        } else if class > 0 {
            if c == ']' {
                class = class - 1;
            }
            i = i + 1;
        } else if c == '(' {
            depth = depth + 1;
            i = i + 1;
        } else if c == ')' {
            depth = if depth == 0 { 0 } else { depth - 1 };
            i = i + 1;
        } else if c == '|' && depth == 0 {
            return true;
        } else {
            i = i + 1;
        }
    }
    false
}

/// Whether a quantifier at `j` lets the item before it occur zero times.
fn optional_quantifier_at(cs: &Vec<char>, j: usize) -> (r: bool)
    ensures
        r == optional_at(cs@, j as int),
{
    let n = cs.len();
    if j >= n {
        return false;
    }
    let c = cs[j];
    if c == '?' || c == '*' {
        return true;
    }
    if c == '{' && j + 1 < n {
        let d = cs[j + 1];
        return d == '0' || d == ',';
    }
    false
}

/// Extracts the longest literal prefix from a regex pattern, stopping at the
/// first regex construct and reading `\.`-style escapes as their character.
/// A character that `?`, `*` or a repetition from zero makes optional ends
/// the prefix before it, so the prefix begins every match. Returns the empty
/// string for patterns with top-level alternation.
pub fn extract_literal_prefix(pattern: &str) -> (r: String)
    ensures
        r@ == spec_literal_prefix(pattern@),
{
    if has_top_level_alternation(pattern) {
        return String::new();
    }
    let cs = chars_of(pattern);
    let n = cs.len();
    let mut prefix: Vec<char> = Vec::new();
    let mut i: usize = 0;
    while i < n
        invariant_except_break
            i <= n + 1,
            prefix@ + literal_run_from(cs@, i as int) == literal_run_from(cs@, 0),
        invariant
            n == cs@.len(),
            cs@ == pattern@,
            !spec_has_top_level_alternation(pattern@),
        ensures
            prefix@ == literal_run_from(cs@, 0),
        decreases n + 1 - i,
    {
        let c = cs[i];
        if c == '.' || c == '*' || c == '+' || c == '?' || c == '(' || c == ')' || c == '['
            || c == ']' || c == '{' || c == '}' || c == '|' || c == '^' || c == '$' {
            assert(literal_run_from(cs@, i as int) == Seq::<char>::empty());
            assert(prefix@ + Seq::<char>::empty() == prefix@);
            break;
        } else if c == '\\' {
            if i + 1 < n {
                let ec = cs[i + 1];
                if ec == '.' || ec == '*' || ec == '+' || ec == '?' || ec == '(' || ec == ')'
                    || ec == '[' || ec == ']' || ec == '{' || ec == '}' || ec == '|' || ec == '^'
                    || ec == '$' || ec == '\\' {
                    if optional_quantifier_at(&cs, i + 2) {
                        assert(literal_run_from(cs@, i as int) == Seq::<char>::empty());
                        assert(prefix@ + Seq::<char>::empty() == prefix@);
                        break;
                    }
                    let ghost old_prefix = prefix@;
                    prefix.push(ec);
                    assert(old_prefix + literal_run_from(cs@, i as int)
                        == prefix@ + literal_run_from(cs@, i + 2));
                    i = i + 2;
                } else {
                    assert(literal_run_from(cs@, i as int) == Seq::<char>::empty());
                    assert(prefix@ + Seq::<char>::empty() == prefix@);
                    break;
                }
            } else {
                assert(literal_run_from(cs@, i as int) == Seq::<char>::empty());
                assert(prefix@ + Seq::<char>::empty() == prefix@);
                break;
            }
        } else {
            if optional_quantifier_at(&cs, i + 1) {
                assert(literal_run_from(cs@, i as int) == Seq::<char>::empty());
                assert(prefix@ + Seq::<char>::empty() == prefix@);
                break;
            }
            let ghost old_prefix = prefix@;
            prefix.push(c);
            assert(old_prefix + literal_run_from(cs@, i as int)
                == prefix@ + literal_run_from(cs@, i + 1));
            i = i + 1;
        }
    }
    string_from_chars(&prefix)
}

/// `p` wrapped in a non-capturing group.
pub open spec fn group(p: Seq<char>) -> Seq<char> {
    seq!['(', '?', ':'] + p + seq![')']
}

/// Non-capturing groups of the patterns joined with `|`.
pub open spec fn join_groups(ps: Seq<Seq<char>>) -> Seq<char>
    decreases ps.len(),
{
    if ps.len() == 0 {
        Seq::empty()
    } else if ps.len() == 1 {
        group(ps[0])
    } else {
        join_groups(ps.drop_last()) + seq!['|'] + group(ps.last())
    }
}

/// A single pattern stands alone; several are combined by alternation.
pub open spec fn combine_patterns(ps: Seq<Seq<char>>) -> Seq<char> {
    if ps.len() == 1 {
        ps[0]
    } else {
        join_groups(ps)
    }
}

/// The texts of a list of strings.
pub open spec fn string_views(v: Seq<String>) -> Seq<Seq<char>> {
    v.map_values(|s: String| s@)
}

/// The patterns as the regex reads them: escaped under `-F`.
pub open spec fn regex_alternatives(patterns: Seq<Seq<char>>, fixed: bool) -> Seq<Seq<char>> {
    if fixed {
        patterns.map_values(|p: Seq<char>| spec_escape(p))
    } else {
        patterns
    }
}

/// The text of the regular expression that a configuration compiles to:
/// `-x` anchors the whole line, `-w` adds word boundaries.
pub open spec fn spec_regex_source(patterns: Seq<Seq<char>>, fixed: bool, line: bool, word: bool) -> Seq<char> {
    let p = combine_patterns(regex_alternatives(patterns, fixed));
    if line {
        seq!['^', '(', '?', ':'] + p + seq![')', '$']
    } else if word {
        seq!['\\', 'b', '(', '?', ':'] + p + seq![')', '\\', 'b']
    } else {
        p
    }
}

/// Law: with `-x` the regex is the combined patterns in one group anchored
/// at both ends, `^(?:...)$`, so that a line is selected only when the
/// patterns match all of it; otherwise, with `-w`, the group sits between
/// word boundaries, `\b(?:...)\b`; with neither, it is the combined
/// patterns themselves.
pub proof fn lemma_regex_source_anchors(patterns: Seq<Seq<char>>, fixed: bool, line: bool, word: bool)
    ensures
        ({
            let src = spec_regex_source(patterns, fixed, line, word);
            let p = combine_patterns(regex_alternatives(patterns, fixed));
            &&& line ==> src.len() == p.len() + 6
            &&& line ==> src.take(4) == seq!['^', '(', '?', ':']
            &&& line ==> src.subrange(4, (4 + p.len()) as int) == p
            &&& line ==> src[src.len() - 2] == ')' && src[src.len() - 1] == '$'
            &&& !line && word ==> src.len() == p.len() + 8
            &&& !line && word ==> src.take(5) == seq!['\\', 'b', '(', '?', ':']
            &&& !line && word ==> src.subrange(5, (5 + p.len()) as int) == p
            &&& !line && word ==> src.skip((5 + p.len()) as int) == seq![')', '\\', 'b']
            &&& !line && !word ==> src == p
        }),
{
    let src = spec_regex_source(patterns, fixed, line, word);
    let p = combine_patterns(regex_alternatives(patterns, fixed));
    if line {
        assert(src.take(4) =~= seq!['^', '(', '?', ':']);
        assert(src.subrange(4, (4 + p.len()) as int) =~= p);
    } else if word {
        assert(src.take(5) =~= seq!['\\', 'b', '(', '?', ':']);
        assert(src.subrange(5, (5 + p.len()) as int) =~= p);
        assert(src.skip((5 + p.len()) as int) =~= seq![')', '\\', 'b']);
    }
}

/// Law: a pattern compiled with `-x` has the regex `^(?:...)$` around the
/// combined patterns.
pub proof fn lemma_compiled_line_regexp(p: CompiledPattern, c: ResolvedConfig)
    requires
        p.compiled_from(c),
        c.line_regexp,
    ensures
        ({
            let alt = combine_patterns(regex_alternatives(string_views(c.patterns@), c.fixed_strings));
            p.regex_source() == seq!['^', '(', '?', ':'] + alt + seq![')', '$']
        }),
{
    let alt = combine_patterns(regex_alternatives(string_views(c.patterns@), c.fixed_strings));
    lemma_regex_source_anchors(string_views(c.patterns@), c.fixed_strings, true, c.word_regexp);
    assert(p.regex_source() =~= seq!['^', '(', '?', ':'] + alt + seq![')', '$']);
}

/// The needle of the literal fast path, when the configuration allows one:
/// one pattern, no `-i`, `-w` or `-x`, and a pattern that is literal or `-F`.
pub open spec fn spec_literal_needle(c: ResolvedConfig) -> Option<Seq<u8>> {
    let ps = string_views(c.patterns@);
    if ps.len() == 1 && !c.ignore_case && !c.word_regexp && !c.line_regexp
        && (c.fixed_strings || spec_is_literal(ps[0])) {
        Some(encode_utf8(ps[0]))
    } else {
        None
    }
}

/// The literal prefix used to find candidate lines for a regex: only for a
/// single case-sensitive pattern without the literal path, and only when the
/// prefix is at least two bytes long.
pub open spec fn spec_prefix_needle(c: ResolvedConfig) -> Option<Seq<u8>> {
    let ps = string_views(c.patterns@);
    if spec_literal_needle(c) is None && ps.len() == 1 && !c.ignore_case
        && encode_utf8(spec_literal_prefix(ps[0])).len() >= 2 {
        Some(encode_utf8(spec_literal_prefix(ps[0])))
    } else {
        None
    }
}

/// A compiled search pattern together with a deterministic cache key.
///
/// For simple literal patterns (no regex metacharacters, no `-i`, `-w` or
/// `-x`) a substring searcher is used instead of the regex.
pub struct CompiledPattern {
    pub regex: RegexMatcher,
    pub cache_key: String,
    /// Fast literal searcher, set when the pattern is a plain byte string.
    literal: Option<LiteralFinder>,
    /// Searcher for the literal prefix of a regex pattern, used to find
    /// candidate lines that the regex then checks.
    prefix: Option<LiteralFinder>,
}

impl CompiledPattern {
    /// The literal needle, when the fast literal path is used.
    pub closed spec fn literal_needle(&self) -> Option<Seq<u8>> {
        match self.literal {
            Some(f) => Some(f@),
            None => None,
        }
    }

    /// The literal prefix of the regex, when candidate filtering is used.
    pub closed spec fn prefix_needle(&self) -> Option<Seq<u8>> {
        match self.prefix {
            Some(f) => Some(f@),
            None => None,
        }
    }

    /// The text of the compiled regular expression.
    pub closed spec fn regex_source(&self) -> Seq<char> {
        self.regex.source()
    }

    /// Whether the regular expression was compiled case-insensitively.
    pub closed spec fn regex_ignore_case(&self) -> bool {
        self.regex.ignore_case()
    }

    /// The text of the cache key.
    pub closed spec fn cache_key_text(&self) -> Seq<char> {
        self.cache_key@
    }

    /// Whether the regex accepts `h`.
    pub open spec fn regex_accepts(&self, h: Seq<u8>) -> bool {
        regex_is_match(self.regex_source(), self.regex_ignore_case(), h)
    }

    /// What [`CompiledPattern::is_match`] answers: substring search on the
    /// literal path, the regex otherwise.
    pub open spec fn spec_is_match(&self, h: Seq<u8>) -> bool {
        match self.literal_needle() {
            Some(n) => contains(h, n),
            None => self.regex_accepts(h),
        }
    }

    /// The pattern was compiled from `c`.
    pub open spec fn compiled_from(&self, c: ResolvedConfig) -> bool {
        &&& self.regex_source() == spec_regex_source(
            string_views(c.patterns@),
            c.fixed_strings,
            c.line_regexp,
            c.word_regexp,
        )
        &&& self.regex_ignore_case() == c.ignore_case
        &&& self.literal_needle() == spec_literal_needle(c)
        &&& self.prefix_needle() == spec_prefix_needle(c)
        &&& is_cache_key(self.cache_key_text())
    }

    /// Builds a [`CompiledPattern`] from the resolved configuration.
    ///
    /// Multiple `-e` patterns are combined with alternation (`|`). The `-F`
    /// flag escapes all regex metacharacters, `-x` anchors the pattern to the
    /// whole line and `-w` wraps it in word-boundary anchors.
    ///
    /// Returns the regex crate's error when the resulting pattern is invalid.
    pub fn compile(config: &ResolvedConfig) -> (r: Result<Self, regex::Error>)
        ensures
            r is Ok <==> regex_builds(
                spec_regex_source(
                    string_views(config.patterns@),
                    config.fixed_strings,
                    config.line_regexp,
                    config.word_regexp,
                ),
                config.ignore_case,
            ),
            r matches Ok(p) ==> p.compiled_from(*config),
    {
        let source = regex_source(config);
        let regex = match RegexMatcher::build(source, config.ignore_case) {
            Ok(re) => re,
            Err(e) => return Err(e),
        };

        let n = config.patterns.len();
        let literal = if n == 1 && !config.ignore_case && !config.word_regexp
            && !config.line_regexp && (config.fixed_strings || is_literal(config.patterns[0].as_str())) {
            Some(LiteralFinder::new(config.patterns[0].as_str().as_bytes()))
        } else {
            None
        };

        let prefix = if literal.is_none() && n == 1 && !config.ignore_case {
            let pfx = extract_literal_prefix(config.patterns[0].as_str());
            let pb = pfx.as_str().as_bytes();
            if pb.len() >= 2 {
                Some(LiteralFinder::new(pb))
            } else {
                None
            }
        } else {
            None
        };

        let cache_key = Self::make_cache_key(config);
        Ok(CompiledPattern { regex, cache_key, literal, prefix })
    }

    /// Returns `true` if `haystack` matches this pattern, using the literal
    /// searcher when there is one and the regex otherwise.
    pub fn is_match(&self, haystack: &[u8]) -> (r: bool)
        ensures
            r == self.spec_is_match(haystack@),
    {
        match &self.literal {
            Some(finder) => finder.find(haystack).is_some(),
            None => self.regex.is_match(haystack),
        }
    }

    /// Whether the regex matches `haystack`, whatever the literal path.
    pub fn regex_is_match(&self, haystack: &[u8]) -> (r: bool)
        ensures
            r == self.regex_accepts(haystack@),
    {
        self.regex.is_match(haystack)
    }

    /// The regex's successive non-overlapping matches in `haystack`.
    pub fn regex_find_all(&self, haystack: &[u8]) -> (r: Vec<core::ops::Range<usize>>)
        ensures
            r@.map_values(|m: core::ops::Range<usize>| (m.start, m.end))
                == crate::regex_engine::regex_find_all(self.regex_source(), self.regex_ignore_case(), haystack@),
            crate::finder::ordered_ranges(crate::finder::ranges_view(r@), haystack@.len() as int),
    {
        self.regex.find_all(haystack)
    }

    /// The literal searcher, if this pattern is a plain byte string.
    pub fn literal_finder(&self) -> (r: Option<&LiteralFinder>)
        ensures
            match r {
                Some(f) => self.literal_needle() == Some(f@),
                None => self.literal_needle() is None,
            },
    {
        self.literal.as_ref()
    }

    /// The searcher for the literal prefix of a regex pattern.
    pub fn prefix_finder(&self) -> (r: Option<&LiteralFinder>)
        ensures
            match r {
                Some(f) => self.prefix_needle() == Some(f@),
                None => self.prefix_needle() is None,
            },
    {
        self.prefix.as_ref()
    }
}

/// The regex text for a configuration.
fn regex_source(config: &ResolvedConfig) -> (r: String)
    ensures
        r@ == spec_regex_source(
            string_views(config.patterns@),
            config.fixed_strings,
            config.line_regexp,
            config.word_regexp,
        ),
{
    let n = config.patterns.len();
    let ghost ps = string_views(config.patterns@);
    let ghost alts = regex_alternatives(ps, config.fixed_strings);
    let mut escaped: Vec<String> = Vec::new();
    for i in 0..n
        invariant
            n == config.patterns@.len(),
            ps == string_views(config.patterns@),
            alts == regex_alternatives(ps, config.fixed_strings),
            escaped@.len() == i,
            forall|j: int| 0 <= j < i ==> #[trigger] escaped@[j]@ == alts[j],
    {
        if config.fixed_strings {
            escaped.push(regex_escape(config.patterns[i].as_str()));
        } else {
            escaped.push(config.patterns[i].clone());
        }
    }
    assert(string_views(escaped@) == alts);

    let mut pattern = String::new();
    if n == 1 {
        push_str(&mut pattern, escaped[0].as_str());
    } else {
        for i in 0..n
            invariant
                n == escaped@.len(),
                n != 1,
                pattern@ == join_groups(string_views(escaped@).take(i as int)),
        {
            let ghost before = pattern@;
            if i > 0 {
                push_char(&mut pattern, '|');
            }
            push_char(&mut pattern, '(');
            push_char(&mut pattern, '?');
            push_char(&mut pattern, ':');
            push_str(&mut pattern, escaped[i].as_str());
            push_char(&mut pattern, ')');
            proof {
                let vs = string_views(escaped@);
                assert(vs.take(i + 1).drop_last() == vs.take(i as int));
                assert(vs.take(i + 1).last() == escaped@[i as int]@);
                if i == 0 {
                    assert(vs.take(1) == seq![escaped@[0]@]);
                }
            }
        }
        assert(string_views(escaped@).take(n as int) == string_views(escaped@));
    }
    assert(pattern@ == combine_patterns(alts));

    if config.line_regexp {
        let mut wrapped = String::new();
        push_char(&mut wrapped, '^');
        push_char(&mut wrapped, '(');
        push_char(&mut wrapped, '?');
        push_char(&mut wrapped, ':');
        push_str(&mut wrapped, pattern.as_str());
        push_char(&mut wrapped, ')');
        push_char(&mut wrapped, '$');
        wrapped
    } else if config.word_regexp {
        let mut wrapped = String::new();
        push_char(&mut wrapped, '\\');
        push_char(&mut wrapped, 'b');
        push_char(&mut wrapped, '(');
        push_char(&mut wrapped, '?');
        push_char(&mut wrapped, ':');
        push_str(&mut wrapped, pattern.as_str());
        push_char(&mut wrapped, ')');
        push_char(&mut wrapped, '\\');
        push_char(&mut wrapped, 'b');
        wrapped
    } else {
        pattern
    }
}

/// A cache key: sixteen lowercase hexadecimal digits.
pub open spec fn is_cache_key(k: Seq<char>) -> bool {
    exists|h: u64| k == hex16(h)
}

/// The hexadecimal digit for `d < 16`.
pub open spec fn hex_digit(d: int) -> char {
    if d < 10 { ((d + 48) as u32) as char } else { ((d + 87) as u32) as char }
}

/// The last `n` hexadecimal digits of `v`, zero-padded.
pub open spec fn hex_digits(v: nat, n: nat) -> Seq<char>
    decreases n,
{
    if n == 0 {
        Seq::empty()
    } else {
        hex_digits(v / 16, (n - 1) as nat).push(hex_digit((v % 16) as int))
    }
}

/// `format!("{:016x}", v)`.
pub open spec fn hex16(v: u64) -> Seq<char> {
    hex_digits(v as nat, 16)
}

/// `Hash::hash` of a list of strings into `hasher`.
#[verifier::external_body]
fn hash_strings(v: &Vec<String>, hasher: &mut DefaultHasher) {
    std::hash::Hash::hash(v, hasher)
}

/// `Hash::hash` of a flag into `hasher`.
#[verifier::external_body]
fn hash_flag(b: bool, hasher: &mut DefaultHasher) {
    std::hash::Hash::hash(&b, hasher)
}

/// Formats `v` as sixteen lowercase hexadecimal digits.
pub fn format_hex16(v: u64) -> (r: String)
    ensures
        r@ == hex16(v),
{
    let mut buf: Vec<char> = Vec::new();
    for _i in 0..16usize
        invariant
            buf@.len() == _i,
    {
        buf.push('0');
    }
    let mut cur: u64 = v;
    let mut k: usize = 16;
    while k > 0
        invariant
            buf@.len() == 16,
            k <= 16,
            hex_digits(v as nat, 16) == hex_digits(cur as nat, k as nat) + buf@.subrange(k as int, 16),
        decreases k,
    {
        let d: u8 = (cur % 16) as u8;
        let c: char = if d < 10 { (48u8 + d) as char } else { (87u8 + d) as char };
        assert(c == hex_digit((cur as nat % 16) as int));
        let ghost old_buf = buf@;
        buf.set(k - 1, c);
        assert(buf@.subrange(k - 1, 16) == seq![c] + old_buf.subrange(k as int, 16));
        assert(hex_digits(cur as nat, k as nat)
            == hex_digits(cur as nat / 16, (k - 1) as nat).push(c));
        cur = cur / 16;
        k = k - 1;
    }
    assert(buf@.subrange(0, 16) == buf@);
    string_from_chars(&buf)
}

impl CompiledPattern {
    /// A hex-encoded hash of the patterns and the flags that change which
    /// lines match, used as a cache key.
    fn make_cache_key(config: &ResolvedConfig) -> (r: String)
        ensures
            is_cache_key(r@),
    {
        let mut hasher = DefaultHasher::new();
        hash_strings(&config.patterns, &mut hasher);
        hash_flag(config.ignore_case, &mut hasher);
        hash_flag(config.invert_match, &mut hasher);
        hash_flag(config.word_regexp, &mut hasher);
        hash_flag(config.fixed_strings, &mut hasher);
        let h = hasher.finish();
        format_hex16(h)
    }

    /// The needle whose trigrams every matching file must contain: the
    /// literal needle, or else the literal prefix.
    pub open spec fn trigram_source(&self) -> Option<Seq<u8>> {
        match self.literal_needle() {
            Some(n) => Some(n),
            None => self.prefix_needle(),
        }
    }

    /// The distinct trigrams of the literal needle or prefix. Empty when no
    /// trigram can be extracted (pure regex or a needle shorter than three
    /// bytes), meaning no file filtering is possible.
    pub fn required_trigrams(&self) -> (r: Vec<[u8; 3]>)
        ensures
            match self.trigram_source() {
                Some(n) => n.len() >= 3 ==> is_trigram_set(r@, n),
                None => true,
            },
            (self.trigram_source() is None || self.trigram_source().unwrap().len() < 3) ==> r@.len() == 0,
            forall|h: Seq<u8>, i: int| #![trigger contains(h, r@[i]@)] 0 <= i < r@.len()
                && self.trigram_source() is Some && contains(h, self.trigram_source().unwrap())
                ==> contains(h, r@[i]@),
            self.literal_needle() is Some ==> forall|h: Seq<u8>, i: int| #![trigger self.spec_is_match(h), r@[i]]
                0 <= i < r@.len() && self.spec_is_match(h) ==> contains(h, r@[i]@),
    {
        let needle: &[u8] = match &self.literal {
            Some(f) => f.needle(),
            None => match &self.prefix {
                Some(f) => f.needle(),
                None => return Vec::new(),
            },
        };
        let n = needle.len();
        let mut seen: Vec<[u8; 3]> = Vec::new();
        if n < 3 {
            return seen;
        }
        for i in 0..n - 2
            invariant
                n == needle@.len(),
                n >= 3,
                seen@.no_duplicates(),
                forall|t: [u8; 3]| #[trigger] seen@.contains(t) <==> exists|j: int|
                    0 <= j < i && t@ == #[trigger] needle@.subrange(j, j + 3),
        {
            let t: [u8; 3] = [needle[i], needle[i + 1], needle[i + 2]];
            assert(t@ == needle@.subrange(i as int, i + 3));
            let mut found = false;
            let m = seen.len();
            for k in 0..m
                invariant
                    m == seen@.len(),
                    found <==> exists|q: int| 0 <= q < k && seen@[q] == t,
            {
                let u = seen[k];
                if u[0] == t[0] && u[1] == t[1] && u[2] == t[2] {
                    assert(u@ =~= t@);
                    assert(u == t);
                    found = true;
                }
            }
            let ghost old_seen = seen@;
            if !found {
                seen.push(t);
            }
            assert forall|x: [u8; 3]| #[trigger] seen@.contains(x) implies exists|j: int|
                0 <= j < i + 1 && x@ == #[trigger] needle@.subrange(j, j + 3) by {
                if old_seen.contains(x) {
                    let j = choose|j: int| 0 <= j < i && x@ == #[trigger] needle@.subrange(j, j + 3);
                    assert(0 <= j < i + 1 && x@ == needle@.subrange(j, j + 3));
                } else {
                    let q = choose|q: int| 0 <= q < seen@.len() && seen@[q] == x;
                    assert(q == old_seen.len());
                    assert(x == t);
                    assert(x@ == needle@.subrange(i as int, i + 3));
                }
            }
            assert forall|x: [u8; 3]| (exists|j: int|
                0 <= j < i + 1 && x@ == #[trigger] needle@.subrange(j, j + 3)) implies #[trigger] seen@.contains(x) by {
                let j = choose|j: int| 0 <= j < i + 1 && x@ == #[trigger] needle@.subrange(j, j + 3);
                if j == i {
                    assert(x == t) by { assert(x@ =~= t@); }
                    if found {
                        let q = choose|q: int| 0 <= q < m && seen@[q] == t;
                        assert(seen@[q] == x);
                    } else {
                        assert(seen@[seen@.len() - 1] == x);
                    }
                } else {
                    assert(needle@.subrange(j, j + 3) == x@);
                    assert(old_seen.contains(x));
                    let q = choose|q: int| 0 <= q < old_seen.len() && old_seen[q] == x;
                    assert(seen@[q] == x);
                }
            }
        }
        proof {
            assert forall|h: Seq<u8>, k: int| 0 <= k < seen@.len() && contains(h, needle@)
                implies #[trigger] contains(h, seen@[k]@) by {
                assert(seen@.contains(seen@[k]));
                let j = choose|j: int| 0 <= j < n - 2 && seen@[k]@ == #[trigger] needle@.subrange(j, j + 3);
                lemma_contains_trigram(h, needle@, j);
            }
        }
        seen
    }
}

/// A text that contains `n` contains each three consecutive bytes of `n`.
pub proof fn lemma_contains_trigram(h: Seq<u8>, n: Seq<u8>, j: int)
    requires
        contains(h, n),
        0 <= j,
        j + 3 <= n.len(),
    ensures
        contains(h, n.subrange(j, j + 3)),
{
    let p = choose|p: int| crate::finder::occurs_at(h, n, p);
    assert(h.subrange(p + j, p + j + 3) =~= h.subrange(p, p + n.len()).subrange(j, j + 3));
    assert(crate::finder::occurs_at(h, n.subrange(j, j + 3), p + j));
}

/// `v` holds each trigram of `n` exactly once.
pub open spec fn is_trigram_set(v: Seq<[u8; 3]>, n: Seq<u8>) -> bool {
    &&& v.no_duplicates()
    &&& forall|t: [u8; 3]| v.contains(t) <==> exists|j: int|
        0 <= j <= n.len() - 3 && t@ == #[trigger] n.subrange(j, j + 3)
}

} // verus!
