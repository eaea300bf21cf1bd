# fugue

A verified library for the `fugue` modular audio toolkit: the logic that
compiles a signal graph, plans edits and reloads of a running invention,
builds development modules, and imports and compares MusicXML scores.
Everything under `src/` is written in Verus and carries its contract;
`app/` holds the thin ordinary-Rust layer (file and archive I/O, serde
documents, floating-point views) around it.

Layout:

- `src/topology.rs`, `src/schedule.rs`, `src/scc.rs`: graph compilation —
  depth-first processing order, strongly connected process groups
  (Tarjan), routes and feedback delays.
- `src/state.rs`, `src/graph.rs`, `src/reload.rs`, `src/patch.rs`,
  `src/runtime.rs`, `src/rpc.rs`: the running invention's state and the
  plans for adding, swapping, patching and reloading modules.
- `src/builder.rs`, `src/development.rs`, `src/invention.rs`,
  `src/assets.rs`: invention documents, development definitions and
  assets.
- `src/xml.rs`, `src/musicxml.rs`, `src/convert.rs`, `src/mxl.rs`,
  `src/events.rs`, `src/marks.rs`, `src/names.rs`: MusicXML import.
- `src/score.rs`, `src/compare.rs`, `src/rat.rs`, `src/text.rs`,
  `src/json.rs`, `src/sorting.rs`, `src/poly.rs`, `src/module.rs`:
  score validation and comparison, exact rationals, text and JSON helpers.

Outside crates: `roxmltree` (XML parsing) and `zip` (`.mxl` archives) are
called from `src/` through small trusted wrappers whose contracts name
their results; `serde` and `serde_json` are used by `app/` only.
