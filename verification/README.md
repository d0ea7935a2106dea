# org_formatter

A formatter for Org-mode documents, written in Verus and proved against its
specification.

It drops blank lines at the ends of a document, collapses runs of empty
lines, writes headings without indentation and with configurable spacing
before body text and between headings, upper-cases drawer and block
keywords, lower-cases block types, keeps block contents verbatim, puts one
space after list markers and drawer property names, and can refill
paragraphs and list items to a fill column, measuring East Asian wide
characters as two columns.

## Layout

- `src/text.rs` — whitespace, spans, trimming, words and lines over
  character sequences, with their executable counterparts.
- `src/width.rs` — display width of characters and strings.
- `src/case.rs` — Unicode case conversion, delegated to the standard library.
- `src/classify.rs` — headings, list items, drawer ends, paragraph lines.
- `src/wrap.rs` — greedy filling and paragraph wrapping.
- `src/list.rs` — list marker normalisation, splitting and wrapping.
- `src/format.rs` — the formatter as a state machine over lines (specification).
- `src/engine.rs` — the executable state machine, proved to follow it.
- `src/document.rs` — `format_org` and `format_lines`.
- `src/laws.rs` — properties proved of all inputs.
- `app/main.rs` — the command-line tool (`--check`, `--wrap-paragraphs`,
  `--wrap-lists`, `--fill-column=N`, `--heading-to-body-spacing=N`,
  `--heading-to-heading-spacing=N`).
