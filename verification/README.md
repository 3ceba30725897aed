# loomgui_core

The core of a retained-mode UI: HTML and CSS are parsed into an element tree and style rules,
styles are cascaded, a scene of nodes is built and edited at run time, pointer input drives hover,
press and click, and every frame the scene becomes render nodes in draw order, batched and merged.
Components travel in a binary package format.

- `src/` is the library, written in Verus: every function has a contract, and all but a few
  trusted calls into outside crates and std are proved. It holds the selector parser and matcher,
  HTML scraping (through `scraper`, behind one trusted call) with body checking and scene
  gathering, declaration parsing, the package writer and reader (with the laws that reading gives
  back what was written and that every proper beginning of a written package reads as
  truncated), the texture registry, the pointer state machine, the run-time tree (`tree`, with the laws that its
  edits keep parent and child links in agreement), draw order and clip contexts, hit testing,
  batching, mesh merging and mesh index lists.
- `app/` is ordinary Rust around it: CSS parsing through `cssparser` and the file reads of
  component style sheets, float styles on `taffy`, `bincode` blobs, mesh geometry and the vertex
  data of merged meshes, clip rectangles, the pointer loop with its clocks and distances, and the
  scene in a `slotmap` whose edits go through the library.
- `tests/` runs the library on concrete values.
