# swede

Swede is a graph-first recipe language: a recipe is a list of single-assignment
bindings (`coated = mix(marinade, strips) @5m`), a menu names recipes to serve
together. This crate reads, checks, projects, schedules, scales and formats
Swede files. Every function of the library is verified with Verus against its
contract, except one trusted wrapper, `text::push_char`, which appends a
character to a `String` through std's `String::push`. Span offsets count
characters of the source; the command line writes them as byte offsets in its
JSON output.

## Layout

- `src/` — the verified library.
  - `text`, `number`: character and fixed-point number primitives (nine
    decimal places, exact arithmetic).
  - `ast`, `amount`, `parse`: the typed syntax tree, the classification of
    amounts, timers and temperatures, and the parser. The parser's contract
    says, from the text alone, where each reader stops (`node_ref_res` up to
    `binding_res` and `entry_res`), which statements a file holds with their
    spans and where every syntax error lies (`body_scan`,
    `parse_determined`); and what every statement, call, argument and
    annotation it reads is, in terms of the source text. A parse without
    errors covers the whole text.
  - `diagnostic`, `uses`, `validate`: the static rules (E000-E006, E008,
    W001-W004) as spec functions, and the validator that reports exactly
    those diagnostics, sorted by position.
  - `model`: the recipe graph, built exactly as the spec function
    `spec_build` describes; ids are a topological order.
  - `basis`, `render`, `grid`: basis resolution and the two table projections.
  - `schedule`: as-soon-as-possible scheduling with back-placement, menus,
    co-residency proposals and the text timeline.
  - `fmt`: the formatter (`=` alignment within runs of assignments), whose
    output is stated exactly as the alignment edits applied to the source.
  - `analysis`: editor support (positions, diagnostics, outline, formatting,
    go-to-definition).
  - `scale`, `units`: what scaling rewrites, how each amount is rewritten
    (summed, term by term, or kept), serving counts, unit names, aliases and
    the exact sizes by which units of one system compare.
- `tests/` — tests of the library on concrete inputs.
- `app/` — the `swede` command line program and language server: file and
  network I/O, JSON output, and the floating-point unit arithmetic
  (conversions, rollup, cooking fractions) that scaling uses.

## Laws proved

Among the proof functions: depth grows along every edge of the graph, leaves
listed for a node are leaves, diagnostics come out in position order, every
data edge is finish-to-start in the as-soon-as-possible pass, no task finishes
before it starts, tasks are listed in order of start, a back-placed node
finishes with its target, every recipe of a menu serves by time zero, and an
editor position maps back to its offset. `build` states that the terminal is
marked and named after the last output of the last binding. Every parse the
parser's contract admits agrees on errors and statement spans, and so on the
formatting (`format_text`), the outline and the serving count of a text.
Formatting is idempotent (`law_format_idempotent`): the formatter keeps an
alignment pass only when a second pass leaves it as it is. The grid of a
recipe depends only on what its graph's nodes say (`law_grid_is_determined`).
The formatter changes only whitespace and leaves a text with syntax errors as
it is.
