# graph_canvas

The decision-making core of a node-graph editor's canvas, verified with Verus.

`src/` is the library; every function in it carries a contract that Verus
proves:

- `budget` — the per-frame preview budget and its round-robin rotation.
- `lod` — the zoom level-of-detail ladder and its gates.
- `status` — the LIVE / PREVIEW chips and the breakpoint badge ladder.
- `doc` — pins, wires and nodes of a graph document: the wiring rules,
  reroute resolution, converge ranks, incident-pin index, header tags,
  pin labels and what a wire dropped on a node body replaces.
- `errors` — the anchored-error index and the F8 error cycle.
- `exec_viz` — the discrete part of a live instance's trace.
- `layout` — the layered auto-layout: longest-path ranks and barycenter
  column ordering.
- `text` — comment tokens and `#node` references, slugs, filter
  highlights, decimal numbers.
- `rule` — names of animation transition rules.
- `vars` — the variable type picker.
- `commands` — bookmark recall slots and direct-align actions.

`app/` is the host side that works in floating point: zoom thresholds,
layout placement from node sizes, and the trace's continuous channels
(pulses, rates, value ages, wait bars).

`tests/` exercises the library on concrete values.
