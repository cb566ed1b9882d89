# one_grep

Local-first workspace search, as a verified library. The library decides what
a query leads to, cuts files into chunks, finds and orders hits, fuses and
reranks lists of them, frames and reads protocol text, and renders the answers.
Every function of `src/` carries a contract that Verus proves.

## Layout

- `src/` is the library.
  - `text`, `bytes`, `paths`, `order`: characters, byte offsets, paths and a
    stable sort, with their models.
  - `syntax`, `outline`, `sections`, `extract`: source and Markdown text into
    chunks that cite lines.
  - `matching`, `globs`, `rg`: live text search.
  - `route`, `cli`, `mcp`: which search a request leads to.
  - `fuse`, `embed`, `jev`: ranked lists, fused and reranked.
  - `front`, `skill`: the skill library.
  - `astg`, `lsp`, `eval`: structural search, definitions, evaluation.
  - `redact`, `render`, `error`: what leaves the program.
- `tests/` runs the library on concrete values.
- `app/` is the program around it: arguments, files, processes, the network
  and floating-point scores.

## Contracts

A function states its result over spec functions of its module: `extract`
speaks of `text_chunks`, `plan_query` of `query_plan`, and so on. Public proof
functions state what holds across functions, such as `windows_leave_no_gap`,
`secret_values_never_show` or `rerank_keeps_every_hit`.

Calls into tree-sitter, `grep`, `ignore` and `url`, and a few functions of the
standard library, stand behind small functions marked `external_body`. The
comment above each says what it claims of the call. A spec function without a
body names a result that is too long to state.
