# scrub

Detects and removes invisible-Unicode carriers (zero-width and format
controls, space homoglyphs, stray bidi controls, tag characters, variation
selectors, private-use characters) and stray `<meta name="generator">` tags
from UTF-8 text and EPUB containers, while keeping the invisibles that carry
meaning: emoji ZWJ sequences, CJK and Mongolian variation selectors, script
joiners, complete flag tag sequences, paired bidi embeddings and
orthographic format marks.

The library is written in Verus and proved against its contracts.

## Layout

- `src/unicode/` — the character-level pass.
  - `tables.rs`, `ucd.rs`: code point classes; the general category and NFKC
    come from `unicode-general-category` and `unicode-normalization`.
  - `context.rs`: complete flag sequences and matched bidi embeddings.
  - `decide.rs`: the rule applied to one character in its context
    (`decide_rule`), and its executable counterpart.
  - `scan.rs`: the whole-text pass (`layer_a`) as a specification.
  - `clean.rs`, `inspect.rs`, `labels.rs`: `clean_text` and `inspect_text`
    with their statistics and reports.
  - `laws.rs`, `passes.rs`: idempotence, detection
    counting what cleaning removes, cleaned text detecting clean, and the
    preservation of each kind of load-bearing invisible.
- `src/epub/` — EPUB containers held in memory: `archive.rs` wraps the `zip`
  crate, `markup.rs` recognises text entries and strips generator tags,
  `repack.rs` cleans and repacks, `detect.rs` surveys, `laws.rs` proves the
  container shape (every entry once, `mimetype` first and stored, binary
  entries unchanged) and that a cleaned EPUB surveys with no generator tag.
- `src/api.rs` — format detection by extension and detect/clean entry points
  over a file's contents.
- `app/` — the `scrub` command line: argument parsing, file I/O and JSON
  output.
- `tests/` — behaviour tests run against the compiled library.
