# resolver

Static dependency resolution for a registry of Nix packages, written in Verus.

The program evaluates the registry's `lambdas` output with `nix eval`, finds the
file and position of each package's `callPackage`-style lambda, reads the names
the lambda destructures from its argument, builds the dependency graph, and
renders it both with graphviz and as Nix code that builds the packages level by
level.

Layout:

- `src/` is the verified library.
  - `package.rs`: packages and source positions, and the byte offset a position denotes.
  - `locator.rs`: reading package locations from the output of `nix eval`.
  - `cst.rs`: the syntax tree that rnix builds, as plain values, and queries on it.
  - `build_graph.rs`: reading dependency names, and resolving names into graph edges.
  - `deps.rs`: the finished graph, its graphviz rendering and its levels.
  - `graph.rs`: the petgraph calls the graph is built and walked with, and their contracts.
  - `codegen.rs`: Nix code generation.
  - `text.rs`: text helpers (decimal numbers, splitting, sorting).
  - `error.rs`: the error types and their messages.
- `tests/` runs the library on concrete inputs.
- `app/main.rs` is the command-line program: it runs `nix eval`, reads files,
  writes the outputs and calls `dot` and `nixfmt`.
