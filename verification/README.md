# tiny_pdg_cs

A C# program dependency graph builder whose logic is verified with Verus.
C# source is parsed with tree-sitter into a plain syntax tree; from it the
library builds control flow graphs, program dependence graphs (control
dependences from post-dominators; data dependences are empty), hammock
regions, type graphs and call graphs, resolves calls (direct, virtual/CHA/RTA,
abstract, interface, DI, factory, reflection, dynamic), detects design
patterns, extracts HTTP routes, and drives an interactive caller/callee
traversal.

Layout:

- `src/` — the verified library. Public functions state their results in
  `ensures` over spec functions of plain values. The parse of a source text
  is named (`csharp_nodes` in `src/parse/parser.rs`, over what tree-sitter
  gives for each node of the parse); functions that take C# source state
  their result over the syntax tree of that parse. Calls into tree-sitter
  and petgraph go through small trusted wrappers in `src/parse/parser.rs`,
  `src/cfg/blocks.rs` and `src/pdg/pdg_builder.rs`; their doc comments say
  what is claimed.
- `tests/` — tests run against the compiled library.
- `app/` — the command-line program: argument parsing, file reading, JSON
  output and the interactive loop, around the library's functions.

Maps keyed by names are held as vectors, not as `HashMap`/`HashSet`/
`BTreeMap`: with string keys, vstd's specifications of the std maps give
nothing that the contracts here could be proved from. `NameMap` looks a key
up at its first entry and makes a new entry only for a key it does not hold
yet; its set-like lists grow only by names not yet present. `TypeGraph`
keeps classes and interfaces with unique names (`TypeGraph::wf`), and the
ordered maps (`ImpactGraph.nodes`, `DiffImpactResult.changes`) are vectors
sorted by key (`ImpactGraph::wf`, `DiffImpactResult::wf`).
