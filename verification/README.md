# cargo-crate-split

Analyses a single Rust crate's module dependency graph and proposes how to split
it into a workspace of smaller crates whose dependencies form a DAG.

- `src/` is the verified library: module paths, the module graph (on petgraph),
  strongly connected components, the weighted Eades–Lin–Smyth ordering that
  picks the dependency edges to cut, cut classification, the condensation into
  layered crate proposals, the effort/payoff frontier, the text and Mermaid
  reports, `--respect-order` parsing and the scaffold file contents. Every
  function carries a `requires`/`ensures` contract, and the laws of the
  analysis are public proof functions (in `src/analyze.rs`, `src/fas.rs`,
  `src/graph.rs`, `src/classify.rs` and `src/respect_order.rs`). All of it is
  proved by Verus except the trusted boundary: the
  `#[verifier::external_body]` wrappers around petgraph in `src/graph.rs`,
  around `syn`'s parser and syntax walk in `src/source.rs` (which reports a
  file's `mod` items, `use` trees and paths as the library's syntax events),
  and `string_from_chars` in `src/text.rs`, whose contracts are taken as
  given.
- `app/` is the command-line program around it (`analyze` with `--mermaid`,
  `--json`, `--check`, `--max-cuts`, `--budget`, `--respect-order`, and
  `scaffold`): argument parsing, walking and reading the source tree, JSON
  output and writing the scaffold.
- `tests/` runs the library on concrete inputs.
