# mullion

A terminal UI tiling engine whose behaviour is stated in `requires` / `ensures`
contracts and proved with Verus.

- `src/` is the library, verified as a whole: geometry, the layout tree (partition,
  solve, region lookup, dividers), edge grids and junction glyphs, buffers and their
  diffs, labels and panels, the line editor and forms, floating windows and the graph
  canvas, space-filling curves (the Gilbert order and spanning strands), connector
  routing (grid A* with bend and crossing costs) and the layout quality terms.
  Grapheme segmentation and display widths come from `unicode-segmentation` and
  `unicode-width`, called through small trusted wrappers in `src/buffer.rs`.
- `app/` is ordinary Rust around it: the crossterm backend, terminal I/O, and the
  floating-point parts of layout scoring and refinement.
- `tests/` exercises the library from outside.
