//! The decisions of the directory walk: which names pass the inclusion and
//! exclusion globs, and what becomes of each path and directory entry. The
//! walk itself (reading directories, threads, channels) is the caller's.

use crate::cli::ResolvedConfig;
use crate::text::chars_of;
use vstd::prelude::*;

verus! {

/// A file that was skipped due to size limits.
pub struct SkippedFile {
    pub path: Vec<u8>,
    pub size: u64,
}

/// What a directory entry is.
#[derive(Debug, Clone, Copy, PartialEq, Eq, Structural)]
pub enum EntryKind {
    Directory,
    File,
    Other,
}

/// What the walk does with a path or a directory entry.
#[derive(Debug, Clone, Copy, PartialEq, Eq, Structural)]
pub enum WalkAction {
    /// Hand the file to the searchers.
    Search,
    /// Record the file, of the given size, as skipped for its size.
    SkipTooLarge(u64),
    /// Walk the directory.
    Descend,
    /// Leave it out.
    Ignore,
}

/// `name` matches a simple glob: `*suffix`, `prefix*` or an exact name.
pub open spec fn glob_match(pattern: Seq<char>, name: Seq<char>) -> bool {
    if pattern.len() > 0 && pattern[0] == '*' {
        let suffix = pattern.drop_first();
        suffix.len() <= name.len() && name.subrange(name.len() - suffix.len(), name.len() as int) == suffix
    } else if pattern.len() > 0 && pattern.last() == '*' {
        let prefix = pattern.drop_last();
        prefix.len() <= name.len() && name.subrange(0, prefix.len() as int) == prefix
    } else {
        name == pattern
    }
}

/// Law: a glob without `*` matches exactly the name it spells: no longer
/// name, no prefix and no suffix of it.
pub proof fn lemma_plain_glob_is_exact(pattern: Seq<char>, name: Seq<char>)
    requires
        forall|i: int| 0 <= i < pattern.len() ==> pattern[i] != '*',
    ensures
        glob_match(pattern, name) <==> name == pattern,
{
    if pattern.len() > 0 {
        assert(pattern[0] != '*');
        assert(pattern[pattern.len() - 1] != '*');
    }
}

/// Law: a directory is left out of the walk exactly when an `--exclude-dir`
/// glob matches its name; with globs that hold no `*`, exactly when its name
/// is one of them.
pub proof fn lemma_exclude_dir_exact(name: Seq<char>, size: Option<u64>, include_globs: Seq<String>,
    exclude: Seq<String>, exclude_dir: Seq<String>, max_file_size: u64)
    requires
        forall|g: int, i: int| 0 <= g < exclude_dir.len() && 0 <= i < exclude_dir[g]@.len()
            ==> #[trigger] exclude_dir[g]@[i] != '*',
    ensures
        entry_decision(EntryKind::Directory, name, size, include_globs, exclude, exclude_dir, max_file_size)
            == if exists|g: int| 0 <= g < exclude_dir.len() && #[trigger] exclude_dir[g]@ == name {
                WalkAction::Ignore
            } else {
                WalkAction::Descend
            },
{
    assert forall|g: int| 0 <= g < exclude_dir.len() implies #[trigger] glob_match(exclude_dir[g]@, name)
        == (exclude_dir[g]@ == name) by {
        lemma_plain_glob_is_exact(exclude_dir[g]@, name);
    }
    if exists|g: int| 0 <= g < exclude_dir.len() && #[trigger] exclude_dir[g]@ == name {
        let g = choose|g: int| 0 <= g < exclude_dir.len() && #[trigger] exclude_dir[g]@ == name;
        assert(glob_match(exclude_dir[g]@, name));
    }
}

/// Some glob of the list matches `name`.
pub open spec fn any_glob_match(globs: Seq<String>, name: Seq<char>) -> bool {
    exists|i: int| 0 <= i < globs.len() && #[trigger] glob_match(globs[i]@, name)
}

/// `name` is wanted: it matches an inclusion glob when there are any, and no
/// exclude glob.
pub open spec fn filter_passes(include_globs: Seq<String>, exclude: Seq<String>, name: Seq<char>) -> bool {
    (include_globs.len() == 0 || any_glob_match(include_globs, name)) && !any_glob_match(exclude, name)
}

/// The largest file that is searched: no limit when limits are switched off.
pub open spec fn size_limit_of(config: ResolvedConfig) -> u64 {
    if config.no_limit {
        u64::MAX
    } else {
        config.max_file_size
    }
}

/// What becomes of a path named on the command line.
pub open spec fn seed_decision(is_file: bool, size: Option<u64>, max_file_size: u64, recursive: bool) -> WalkAction {
    if is_file {
        match size {
            Some(s) => if s > max_file_size { WalkAction::SkipTooLarge(s) } else { WalkAction::Search },
            None => WalkAction::Search,
        }
    } else if recursive {
        WalkAction::Descend
    } else {
        WalkAction::Ignore
    }
}

/// What becomes of an entry found in a walked directory.
pub open spec fn entry_decision(
    kind: EntryKind,
    name: Seq<char>,
    size: Option<u64>,
    include_globs: Seq<String>,
    exclude: Seq<String>,
    exclude_dir: Seq<String>,
    max_file_size: u64,
) -> WalkAction {
    match kind {
        EntryKind::Directory => if exclude_dir.len() > 0 && any_glob_match(exclude_dir, name) {
            WalkAction::Ignore
        } else {
            WalkAction::Descend
        },
        EntryKind::File => if !filter_passes(include_globs, exclude, name) {
            WalkAction::Ignore
        } else if max_file_size < u64::MAX && size is Some && size.unwrap() > max_file_size {
            WalkAction::SkipTooLarge(size.unwrap())
        } else {
            WalkAction::Search
        },
        EntryKind::Other => WalkAction::Ignore,
    }
}

/// Whether the characters `s[from..from + t.len()]` are those of `t`.
fn chars_equal_at(s: &Vec<char>, from: usize, t: &Vec<char>, t_from: usize) -> (r: bool)
    requires
        from + (t@.len() - t_from) <= s@.len(),
        t_from <= t@.len(),
    ensures
        r == (s@.subrange(from as int, from + (t@.len() - t_from)) == t@.subrange(t_from as int, t@.len() as int)),
{
    let ls = s.len();
    let lt = t.len();
    let n = lt - t_from;
    let mut k: usize = 0;
    while k < n
        invariant
            ls == s@.len(),
            lt == t@.len(),
            n == t@.len() - t_from,
            from + n <= s@.len(),
            t_from <= t@.len(),
            k <= n,
            s@.subrange(from as int, from + k) == t@.subrange(t_from as int, t_from + k),
        decreases n - k,
    {
        if s[from + k] != t[t_from + k] {
            assert(s@.subrange(from as int, from + n)[k as int] != t@.subrange(t_from as int, t@.len() as int)[k as int]);
            return false;
        }
        assert(s@.subrange(from as int, from + k + 1) =~= s@.subrange(from as int, from + k).push(s@[from + k]));
        assert(t@.subrange(t_from as int, t_from + k + 1) =~= t@.subrange(t_from as int, t_from + k).push(t@[t_from + k]));
        k = k + 1;
    }
    assert(s@.subrange(from as int, from + n) =~= t@.subrange(t_from as int, t@.len() as int));
    true
}

/// Returns `true` if `name` matches a simple glob pattern (e.g. `*.rs`,
/// `Makefile`).
pub fn glob_matches(pattern: &str, name: &str) -> (r: bool)
    ensures
        r == glob_match(pattern@, name@),
{
    let p = chars_of(pattern);
    let s = chars_of(name);
    let np = p.len();
    let ns = s.len();
    if np > 0 && p[0] == '*' {
        let suffix_len = np - 1;
        if suffix_len > ns {
            return false;
        }
        let r = chars_equal_at(&s, ns - suffix_len, &p, 1);
        assert(p@.subrange(1, np as int) == p@.drop_first());
        r
    } else if np > 0 && p[np - 1] == '*' {
        let prefix_len = np - 1;
        if prefix_len > ns {
            return false;
        }
        let mut q: Vec<char> = Vec::new();
        let mut k: usize = 0;
        while k < prefix_len
            invariant
                prefix_len == np - 1,
                np == p@.len(),
                k <= prefix_len,
                q@ == p@.subrange(0, k as int),
            decreases prefix_len - k,
        {
            q.push(p[k]);
            k = k + 1;
            assert(q@ =~= p@.subrange(0, k as int));
        }
        let r = chars_equal_at(&s, 0, &q, 0);
        assert(q@.subrange(0, q@.len() as int) == q@);
        assert(q@ == p@.drop_last());
        r
    } else {
        if np != ns {
            return false;
        }
        let r = chars_equal_at(&s, 0, &p, 0);
        assert(s@.subrange(0, ns as int) == s@);
        assert(p@.subrange(0, np as int) == p@);
        r
    }
}

/// Whether some glob of the list matches `name`.
fn any_glob_matches(globs: &[String], name: &str) -> (r: bool)
    ensures
        r == any_glob_match(globs@, name@),
{
    let n = globs.len();
    let mut i: usize = 0;
    while i < n
        invariant
            n == globs@.len(),
            i <= n,
            forall|j: int| 0 <= j < i ==> !#[trigger] glob_match(globs@[j]@, name@),
        decreases n - i,
    {
        if glob_matches(globs[i].as_str(), name) {
            return true;
        }
        i = i + 1;
    }
    false
}

/// Returns `true` if `file_name` passes inclusion and exclusion globs.
pub fn passes_filter(include_globs: &[String], exclude: &[String], file_name: &str) -> (r: bool)
    ensures
        r == filter_passes(include_globs@, exclude@, file_name@),
{
    if include_globs.len() != 0 && !any_glob_matches(include_globs, file_name) {
        return false;
    }
    if any_glob_matches(exclude, file_name) {
        return false;
    }
    true
}

/// The largest file that is searched: `u64::MAX` when limits are switched
/// off, else the configured maximum.
pub fn size_limit(config: &ResolvedConfig) -> (r: u64)
    ensures
        r == size_limit_of(*config),
{
    if config.no_limit {
        u64::MAX
    } else {
        config.max_file_size
    }
}

/// What becomes of a path named on the command line: a file is searched
/// unless its size (when it could be read) exceeds the limit; a directory
/// is walked when searching recursively.
pub fn seed_action(is_file: bool, size: Option<u64>, max_file_size: u64, recursive: bool) -> (r: WalkAction)
    ensures
        r == seed_decision(is_file, size, max_file_size, recursive),
{
    if is_file {
        match size {
            Some(s) => if s > max_file_size { WalkAction::SkipTooLarge(s) } else { WalkAction::Search },
            None => WalkAction::Search,
        }
    } else if recursive {
        WalkAction::Descend
    } else {
        WalkAction::Ignore
    }
}

/// What becomes of an entry found while walking a directory: directories
/// are walked unless an `--exclude-dir` glob matches their name; files are
/// searched when they pass the globs and, under a size limit, are not
/// larger than it (their size is only needed then); anything else is left
/// out.
pub fn entry_action(
    kind: EntryKind,
    name: &str,
    size: Option<u64>,
    include_globs: &[String],
    exclude: &[String],
    exclude_dir: &[String],
    max_file_size: u64,
) -> (r: WalkAction)
    ensures
        r == entry_decision(kind, name@, size, include_globs@, exclude@, exclude_dir@, max_file_size),
{
    match kind {
        EntryKind::Directory => {
            if exclude_dir.len() != 0 && any_glob_matches(exclude_dir, name) {
                WalkAction::Ignore
            } else {
                WalkAction::Descend
            }
        },
        EntryKind::File => {
            if !passes_filter(include_globs, exclude, name) {
                WalkAction::Ignore
            } else if max_file_size < u64::MAX {
                match size {
                    Some(s) => if s > max_file_size { WalkAction::SkipTooLarge(s) } else { WalkAction::Search },
                    None => WalkAction::Search,
                }
            } else {
                WalkAction::Search
            }
        },
        EntryKind::Other => WalkAction::Ignore,
    }
}

} // verus!
