# jp-core

The core of a Japanese reading toolkit: a tokenizer's rules, a vocabulary
ledger keyed on `(headword, reading)`, a dictionary cache, and the reader's
highlighting and popup — with the logic verified by Verus.

## Layout

- `src/` — the verified library.
  - `text/` — kana, kanji and character classes.
  - `tokenize.rs`, `tokenize/rules.rs`, `tokenize/trace.rs` — the
    tokenizer's decisions over an analysed line: which compounds stay whole,
    which identity a morpheme is filed under, stammers, recomposition, and the
    record of why.
  - `knowledge/` — roles and reading preferences of dictionaries, the ledger's
    keys and statuses, the lexeme layer (which forms are one word), the works'
    cast lists, and the SQL expression the ledger ranks words by.
  - `highlight.rs`, `highlight/placement.rs`, `highlight/derived.rs` — where
    each token sits in the line (UTF-16 offsets), what the reader is shown for
    it, and the byte format of the cached dictionary collections.
  - `define.rs` — what a popup shows and which other readings a position offers.
  - `commands.rs` — the `jp-dict` command line's decisions.
  - `strings.rs`, `tables.rs` — string helpers and lookup tables.
- `tests/` — tests of the library, run against the compiled crate.
- `app/` — the database, the Sudachi analyzer, async plumbing, serde shapes and
  the `jp-dict` program, around the library.
