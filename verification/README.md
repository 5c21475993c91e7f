# fastgrep

A GNU grep-compatible search tool that searches files in parallel and keeps a
trigram index of searched trees. The searching, formatting and indexing logic
is a library whose behaviour is stated in contracts and proved with Verus; the
program around it reads the command line, files and standard input, and runs
the work on threads.

## Layout

- `src/` — the verified library:
  - `cli` — command-line options and their resolution into a configuration;
  - `pattern`, `regex_engine`, `finder` — compiling patterns: literal needles,
    literal prefixes, escaping, and the calls into `regex` and `memchr`;
  - `searcher` — the line model and every search path (whole-buffer literal
    scan, prefix-accelerated regex, line by line), counting and streaming;
  - `parallel` — cutting large buffers into chunks searched independently;
  - `search_laws` — laws relating the search paths to each other;
  - `output` — GNU grep's text output, colours, truncation and JSON Lines;
  - `trigram` — the trigram index: adding files, candidate files, staleness,
    stored parts and eviction of old indexes;
  - `walker` — glob filters and the decisions of the directory walk;
  - `cache` — per-file cached results and their invalidation;
  - `bytes`, `text` — byte and character helpers.
- `app/` — the `grep` program: argument parsing, file and directory access,
  threads, the on-disk index and cache.
- `tests/` — searches of standard input, files and trees with GNU grep's
  output, and checks of the library on concrete values.
