# ferrograph

Graph-powered Rust code intelligence: Rust source is indexed into a graph of nodes
(files, modules, functions, structs, traits, impls, ...) and edges (contains, imports,
calls, implements_trait, ...), which a command line and an MCP server query.

## Layout

- `src/` — the library, verified with Verus:
  - `graph/` — the node and edge types, the graph store (one row per node id, no repeated
    edge), and the queries: reachability, dead functions, blast radius, callers, node info,
    module graph, trait implementors, counts.
  - `pipeline/` — the indexing phases: reading tree-sitter's syntax tree into nodes and
    edges, module and `use` resolution, placeholder resolution for calls and type edges,
    primitives, dead code, git change coupling, and the pipeline that runs them.
  - `search.rs`, `ops.rs`, `tools.rs` — text search with paging, and the operations behind
    the command line and the MCP tools.
  - `config.rs`, `watch.rs` — the command line's commands and database paths; the decisions
    of the file watcher, and the re-index that replaces the store only after a run succeeds.
  - the skill module — the edits to the assistant's rules file that install or remove the
    skill entry, and the status decision.
  - `text.rs` — character-sequence helpers used throughout.
- `app/` — the program around the library: argument parsing (clap), the graph database on
  disk (CozoDB over SQLite) and raw Datalog queries, file discovery, the watch loop
  (notify, Ctrl+C), and the MCP server (rmcp over stdio).
- `tests/` — tests of the library.

Calls into tree-sitter, glob and std's string functions stand behind a few trusted
wrappers in `src/`, each with a doc comment saying what its contract claims.
