# tectonic

Verified core logic of the Tectonic typesetting engine, written in Verus:
every function in `src/` that computes something carries a contract that
Verus proves (the functions that only release a value have none).

## Layout

- `src/numbers.rs` – big-endian and fixed-point numbers of font and DVI files.
- `src/tt_glyf.rs`, `src/tt_metrics.rs`, `src/tt_build.rs` – TrueType
  subsetting: the kept glyphs and their new ids, their metrics, composite
  glyphs and their components, and the `hmtx`, `loca` and `glyf` tables.
- `src/tt_post.rs` – the glyph names of the `post` table.
- `src/type1.rs` – the standard Type 1 fonts.
- `src/cmap_write.rs` – code-space ranges written to CMaps.
- `src/pdfnames.rs`, `src/pdfresource.rs` – PDF name trees and named
  resources.
- `src/dvips.rs` – dvips `ps:` specials.
- `src/node_mem.rs`, `src/node.rs` – XeTeX's node memory.
- `src/xdvipdfmx.rs`, `src/xetex_errors.rs` – engine settings and error
  bookkeeping.
- `src/bibtex/` – BibTeX: character classes (`lex`), the input scanner
  (`scan`), reading database files and field values (`field`), the string
  table (`hash`) and its predefined strings (`predef`), citations (`cite`),
  cross references and the entries kept after reading (`crossref`,
  `entries`), the variables of the style language and the built-in
  functions on entries (`vars`),
  sorting (`sort`), text functions (`text`), names (`names`), case changes
  (`case`), the literal stack and the built-in functions (`stack`), and
  output lines (`output`).
- `tests/` – tests of the library, run on concrete values.

Laws (properties that relate several calls) are public proof functions
named `law_*`.
