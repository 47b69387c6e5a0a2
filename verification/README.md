# codebase-recall

The logic of `code-rcl`, a tool that indexes a codebase (symbols, imports,
references, scopes) with tree-sitter and answers questions about it: an
architecture digest, the blast radius of a change, paths between symbols,
explanations and reports. Everything under `src/` is written in Verus and
carries contracts that the verifier checks.

## Layout

- `src/syntax.rs` runs a tree-sitter grammar over a source file and reads the
  tree out in preorder; `src/analysis/` turns that node list into symbols,
  imports, references, scopes and bindings for each language, and resolves
  references to local bindings. `src/analysis/reach.rs` says which nodes a
  walk reaches, so that each analyzer's contract can state that every call
  it reaches has its reference.
- `src/cache/` holds the records the index stores and the pure helpers around
  them (fuzzy name matching, innermost enclosing symbol).
- `src/commands/` computes what each command prints or writes: digest,
  impact, path search, explain, report, search, sync decisions, the MCP tool
  dispatch, the marker-delimited blocks that `setup` maintains in user
  files and the session hook it keeps in the assistant's `settings.json`
  (over a library JSON value the program converts to and from text).
- `src/graph.rs`, `src/rank.rs` and `src/text.rs` are the shared code graph,
  ranking and text routines.
- `app/` is the program around the library: argument parsing, the SQLite
  cache, file and network I/O, JSON encoding.
- `tests/` exercises the library's public functions.

## Trust

The outside world enters the library only through a few small functions
marked `#[verifier::external_body]`: the tree-sitter parse, BLAKE3 hashing,
the system clock and a few standard-library string and path routines. Each states in its
contract what the outside code's documentation promises, and nothing more.
