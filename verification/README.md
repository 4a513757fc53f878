# skript_lsp

The logic of a language server for [Skript](https://github.com/SkriptLang/Skript)
scripts, verified with Verus, and the server binary around it.

- `src/` is the verified library. Every function states what it returns in its
  contract, over spec functions on plain values (`Seq`, `int`, views of each
  type), and the laws that relate several functions are public proof functions.
  - Text: `strings`, `text`, `convert` (positions in UTF-8/UTF-16), `version`.
  - Scripts: `syntax` (a parse tree as plain values), `outline` (declarations
    and references), `symbols`, `index` (the workspace), `hierarchy`,
    `folding`, `format`, `diagnostics`, `semantic`, `editor`, `completion`,
    `entries`.
  - Syntax patterns: `pattern`, `parser`, `matcher`, `pattern_index`, `catalog`.
  - The syntax database: `docs` (entries and their hover cards), `lookup` (the
    searchable catalog: classification, hover, completion, catalog
    diagnostics).
  - Syntax data and addons: `source`, `skripthub`, `manifest`, `addons`,
    `settings`.
  - The editor extension's decisions: `extension`.
- `tests/` exercises the library on concrete values.
- `app/` is the language-server program: stdio, the file system, the network,
  and conversion between the library's types and the protocol's.
