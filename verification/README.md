# toon_lsp

Tooling for TOON, a compact encoding of the JSON data model: a span-tracking
scanner and error-recovering parser, a TOON decoder and encoder, reference
resolution, and the logic behind a language server and a command-line tool.
The library is written in Verus: each public function states what it returns
in its `requires` / `ensures` contract, and Verus proves the code against it.

## Layout

- `src/` — the verified library.
  - `text.rs` — character, line, UTF-8 and UTF-16 measures shared by the rest.
  - `ast/` — the syntax tree, spans and positions, with their models.
  - `parser/` — the scanner (`scanner.rs`), the parser (`mod.rs`) and the
    model of its grammar (`grammar.rs`), with the nesting and size limits
    (`nesting.rs`, `object_size.rs`).
  - `resolve.rs` — `${path}` and `${env:VAR}` references, with cycle detection.
  - `toon/` — the TOON decoder and encoder into a JSON value of the library's
    own, key folding and path expansion, and round-trip checking.
  - `lsp/` — what the language server computes: diagnostics, hover,
    completion, navigation, rename, formatting, code actions, highlights,
    links, folding, inlay hints, semantic tokens, symbols.
  - `cli/` — the subcommands' logic, their errors and exit codes, and the
    conversion between TOON, JSON and YAML text.
- `tests/` — tests of the library on concrete inputs.
- `app/` — the program around the library: argument parsing, file and
  standard I/O, and the language-server protocol plumbing.

## Working with outside crates

Calls into `toon-format`, `serde_json`, `serde_yaml`, `url` and a few `std`
functions stand behind small trusted wrappers (`#[verifier::external_body]`).
Each wrapper's doc comment says what its contract claims of the outside
code. Where an outside result is a function of its input but too large to
state, the contract names it with an uninterpreted spec function, and the
library's contracts are exact over that name.

## Checking

Verus verifies `src/`; the tests under `tests/` run the compiled library,
with the real outside crates linked.
