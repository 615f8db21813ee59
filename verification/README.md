# lib — the first stages of a PDF reader, verified

The crate reads a PDF file from its end: it finds the `startxref` keyword,
reads the offset behind it, lexes and parses the classic cross-reference
table at that offset (`xref`, subsection headers, `offset gen f|n` rows,
`trailer` and the trailer dictionary), and offers the catalog lookup on top.
Dictionary entries are not looked up yet (`Dict::get` finds nothing), so the
catalog lookup never succeeds: `XRef::try_root` gives `None` for every file,
and `XRef::root`, `Catalog::version`, `Reader::parse` and
`PdfDocument::loadData` admit no input (a proof in `src/xref.rs`,
`law_no_catalog`, states it).

Every function under `src/` is verified with Verus against a contract over
mathematical models (`Seq<u8>` for bytes, `Obj` and `DictView` for PDF
objects, `StreamView` for a stream's window and position), but for one
trusted wrapper around `std::str::from_utf8`.

Layout:

- `src/stream.rs` — a byte stream over a shared buffer with a window
  (`start`..`end`) and a read position; peeks, reads, seeks and skips.
- `src/reader.rs` — `startxref` search, offset parsing, and the loading of a
  document up to its cross-reference table.
- `src/primitives.rs` — PDF objects (`Primitives`, `Dict`, `Name`, `Ref`) and
  their views; `==` on objects (reals compare as `f64` values, dictionaries
  whatever the order of their entries) and their debug text (`debug_text`),
  which the derived `Debug` does not give.
- `src/lexer.rs`, `src/parser.rs` — tokens and objects from a stream, with a
  two-token look-ahead.
- `src/xref.rs` — the cross-reference table reader, the object cache and the
  catalog lookup (which, as said above, never finds a catalog);
  `src/obj.rs` — the catalog's version.
- `app/main.rs` — reads the PDF files under `./samples` and prints what the
  library found.
- `tests/` — tests on concrete inputs.
