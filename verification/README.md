# mathematica-notebook-filter

Strips Mathematica notebooks (`.nb` files) of their output cells and metadata so
that they can be kept under version control, and removes trailing whitespace
from every line.

## Layout

- `src/` — the library, written in Verus and verified.
  - `error.rs` — the errors the parser reports.
  - `sink.rs` — `ByteSink`, the destinations the parser writes to (a `Vec<u8>`,
    or the whitespace cleaner).
  - `parser/` — the notebook parser: `utilities` (loading functions, copying
    bytes), `header`, `notebook`, `cell`, `cell_group_data`, `whitespace` (the
    line cleaner), `search` and `patterns` (byte search and the fixed markers),
    `laws`, `list_laws`, `clean_laws`, `cleaner_laws` and `input_laws`
    (properties of the parser proved about its specification: single cells,
    lists of cells, kept cells at any depth, the whitespace cleaner, and the
    output of a whole notebook), and `parse_input`, which filters a whole
    notebook.
  Each parsing function is specified by a spec function of the same name with
  `_spec` appended, giving the outcome, the number of bytes consumed and what is
  written.
- `tests/` — tests of the library.
- `app/` — the command-line program: argument handling, logging, file and
  standard input/output around `parse_input`.
