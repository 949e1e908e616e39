# depgraph

Builds the dependency graph between a set of Rust crates (the members of
a Cargo workspace, or a directory of standalone crates), renders it as
Graphviz DOT, and reports circular dependency chains. The library is
written in Verus, and Verus proves the contracts of its functions. The one
exception is the call into the `toml` parser: its contract (the parse
result depends on the text alone) and the conversion of that result into
the library's `TomlValue` are trusted, not proved.

## Layout

- `src/graph.rs`: `Graph`, `build_graph` (nodes and internal edges,
  sorted and without repeats), `detect_cycles` (one chain per strongly
  connected component of two or more crates), and the laws about them.
- `src/scc.rs`: the numbered-vertex algorithms behind `detect_cycles`:
  Kosaraju's two depth-first passes, proved to yield exactly the strongly
  connected components, and the greedy walk that finds a chain inside a
  component.
- `src/reach.rs`: walks, reachability and components of a numbered graph.
- `src/order.rs`: the order of names (that of `String`), sorted insertion
  without repeats, and the facts about sorted sequences.
- `src/dot.rs`: `render_dot`, whose output is stated character for
  character.
- `src/manifest.rs`: `CrateInfo` and the reading of a manifest's text:
  parsing it with the `toml` crate, then `[package].name`,
  `[dependencies]` and `[workspace].members`.
- `app/`: the command-line program: arguments, reading files and listing
  directories, printing.
- `tests/`: tests of the library.

## Usage

```bash
depgraph --dir tools/
depgraph --workspace path/to/Cargo.toml
depgraph --dir tools/ --cycles-only
```

DOT goes to stdout, the cycle report to stderr; the exit code is `1` if a
circular dependency was found, `0` otherwise.
