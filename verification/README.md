# cartography_core

The core of a codebase-exploration toolset: a directory map of a repository,
structured views of source files, regex search, symbol lookup, a reference
graph with upstream and downstream queries, and symbol-level diffs between two
versions of a tree. The library is written in Verus: its public functions
carry contracts that Verus proves, and so do most of the private helpers
(some small ones carry none and are simply checked to be free of panics and
overflow).

## Layout

- `src/` — the verified library.
  - `text`, `order`, `languages` — text helpers, orderings and sorting, the
    language of a path.
  - `ast` — syntax trees (parsed with tree-sitter) and symbol extraction.
  - `graph`, `walk`, `refs` — the symbol reference graph (kept in a petgraph
    graph), the breadth-first downstream walk with its soundness and
    completeness proofs, and the upstream and downstream queries.
  - `search` — regex search with grep-regex and grep-searcher.
  - `diff` — symbol-level diffs and the VCS commands behind them.
  - `tree`, `compress`, `symbols` — the codebase map, file structure, outlines
    and definitions.
  - `paths`, `cache`, `index` — root discovery, path resolution, the metadata
    cache, the file inventory and the graph cache that drops the symbol graph
    whenever the inventory changes.
- `tests/` — tests of the library on concrete inputs.
- `app/` — the file-system walk, reads, VCS processes and the Python bindings
  around the library.

Calls into tree-sitter, petgraph, grep-regex, grep-searcher and a few std
functions go through small trusted wrappers (`#[verifier::external_body]`):
their contracts are stated next to them and believed, not proved. Everything
built on them is proved against those contracts.
