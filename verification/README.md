# semble

Code search helpers for coding agents, verified with Verus: chunking source
files at top-level definitions (tree-sitter) or by lines, one-line signatures
of chunks, comment stripping, tokenisation of identifiers, the file tree of an
index, ranking signals that need no scores, and digests of build, test and CI
logs.

Layout:

- `src/` — the verified library. Every function carries a contract over
  `Seq`-level models; laws that relate several functions are public proof
  functions next to the code they speak of.
  - `text` — lines, trimming, searching and joining character sequences.
  - `pattern` — regular expressions (`regex`) and the Unicode routines of the
    standard library, behind trusted wrappers whose results are named.
  - `digest` — format detection and the per-tool digests.
  - `chunking` — definition chunks through tree-sitter, line chunks, merging.
  - `graph` — the dependency graph: direct dependencies, dependents, and the
    files a change affects (a fixed point over reverse edges).
  - `stats` — the savings counters: per-search character counts, and the
    log summed per period and per call type.
  - `outline`, `filter`, `tokens`, `ranking`, `search`, `index`, `tree`,
    `walker`, `utils`.
- `tests/` — unit tests of the library.
- `app/` — the command line: file walking, embeddings, BM25 and score
  arithmetic (floating point), reading and writing the savings log, and
  printing.
