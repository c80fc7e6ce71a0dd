# icalfmt

A validating parser and pretty printer for iCalendar (`.ics`, RFC 5545)
files, written in Verus: every function of the library carries a contract
that the verifier checks against its code.

## Layout

- `src/lib.rs` — the `Component` / `ContentLine` / `Param` / `Diagnostic`
  types and their models (views) as sequences of characters.
- `src/chars.rs` — character helpers: UTF-8 octet counts, ASCII case-folded
  comparison, decimal rendering, and the three calls into std that carry
  trusted contracts (`String::push`, `str::to_uppercase`, `{:?}` formatting).
- `src/text.rs` — TEXT escaping (`escape` / `unescape`) and the proof that
  unescaping undoes escaping.
- `src/lines.rs` — splitting into lines, the bare-LF check, unfolding.
- `src/content.rs` — content lines `NAME;param=v1,v2:value`.
- `src/tree.rs` — building the BEGIN/END component tree.
- `src/parser.rs` — validation, decoding of TEXT values, `parse`, and the
  laws of strict and lenient mode.
- `src/writer.rs` — `print`, folding at 75 octets, and the proofs that folded
  lines fit and that unfolding gives them back.
- `src/roundtrip.rs` — one written property read back as a content line.
- `src/document.rs` — whole documents: what `print` writes, `parse` reads
  back as the same calendar with names uppercased, and printing that again
  gives the same text.
- `src/parsed.rs` — what a strict `parse` gives can be written and read
  back, so the document laws hold for it.
- `app/main.rs` — the command-line tool (`icalfmt [--lenient] <file.ics>`).

Each public function's `ensures` states its result exactly, over spec
functions that describe the format directly (`parse_spec`,
`component_text`, `unescaped`, `escaped`, ...).
