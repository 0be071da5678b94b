# byte-engine UI core

The retained user-interface core of the byte engine, written in Verus: every function under `src/` is proved
against its `requires` / `ensures` contract.

## Layout

- `src/` — the verified library.
  - `retained_tree` — the retained element tree: declaration, removal by scope, reparenting, revisions.
  - `runtime` — component tasks, their waits and inboxes, the focus stack, frame waits and timers.
  - `routing` — how one frame's pointer, key, text, hover, and drag input reaches the tasks that wait for it.
  - `futures` — the waits a component awaits, and the lifecycle of a mounted component's scope.
  - `commands` — the structural changes components ask of the engine.
  - `layout_plan`, `render_plan` — when a retained layout or render can be reused, and what must be recomputed;
    the render revision counter, the drawing order, and the in-place patch of the visible list.
  - `render_pass` — the frame-to-frame decisions of the render pass: warnings, and the dispatches of a backdrop blur.
  - `layout_box` — boxes laid out from their centers, the hit test that finds the box under a point, and the
    choice of the topmost of several hits.
  - `hit_grid` — the grid that narrows pointer hit tests to the entries in the pointer's cell.
  - `drag`, `input` — the pointer gesture and the input queued between evaluations.
  - `measure_cache` — the bounded two-generation cache of text measurements.
  - `font` — glyph keys and the glyph-index lookup on `ttf-parser`.
  - `context`, `evaluation_context`, `properties`, `query`, `depth`, `primitive`, and the smaller modules — element
    keys and contexts, declarations, tree queries, stacking depth, and the shared value types.
- `app/` — ordinary Rust around the library: font files on disk and logging; the float arithmetic of the layout
  flows and element geometry; float pointer queries over the library's hit grid; glyph rasterizing and text
  measurement; and animation curves, each calling into the library for its decisions. The engine's own evaluation
  loop, the float layout pass, and the GPU render pass are not here.
- `tests/` — scenario tests of the library.

Public proof functions in `src/` state the laws the library keeps across calls, such as that a settled hit grid
lists every entry exactly where it lies, or that every pointer grab ends exactly once.
