# SheetForge

SheetForge merges the tables of CSV files and workbook sheets into one XLSX workbook or a
PostgreSQL table. This crate is its verified core, written in Verus: the functions under
`src/` carry contracts that Verus proves, except the small wrappers marked
`#[verifier::external_body]` around calls into std and outside crates (case mapping, path
parts, UTF-8 and GBK decoding, CSV record reading, SHA-256, hex, sorting, splitting,
`Debug` text). Their contracts are trusted, and each states in its doc comment what it
claims of the call it makes.

- `src/desktop/` — the table model of the merger (headers, column mappings, output plan),
  the settings and schemes, the messages of its workers, and its window: the window's state
  and how worker reports and controls change it (`window.rs`, `actions.rs`), what the
  window shows of it (`display.rs`), and what it computes from text (dropped paths, number
  formatting, column lists).
- `src/engine/` — the row engine shared by all merge modes: cell values, mapping rows into
  the output columns, filtering, deduplication, consolidation with exact integer sums,
  joins, ordering, sheet splitting, previews and the checks made before a merge.
- `src/workbench/` — the workbench's table model, scanning rules (header recommendation,
  multi-row headers, delimiter choice, field decoding, the XLSX row stream) and the
  decisions of a PostgreSQL import.
- `src/pg/` — PostgreSQL support: identifier mapping and quoting, COPY text and binary
  encoding, target tables, connection plans and saved connection profiles.
- `src/text.rs`, `src/numbers.rs`, `src/headers.rs`, `src/version.rs`, `src/paths.rs` —
  text, number, header-list, version and path helpers.
- `app/` — a command-line front end: reads the files, runs the checks, writes the workbook
  and keeps schemes and settings.
- `tests/` — tests of the library.
