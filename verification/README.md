# camcam

The verified parts of a CAM tool for a CNC router: the walks its bit takes over
a grid, the G-code lines it writes, and the bookkeeping between them. The
floating-point geometry that turns outlines into tool paths is not part of it.

- `src/` is the library, verified with Verus:
  - `algorithms`: binary searches over sorted values.
  - `bit_path`: the walks a router bit takes over a grid of cells (row by row,
    column by column, or in a spiral from the middle), with proofs that each
    walk visits every cell exactly once in unit steps.
  - `cnc_router`: shape and tool kinds, smoothness settings, and the G-code
    line builder: which command words are repeated, which explanations are
    written, decimal numerals.
  - `rectangle_connections`: a grid of marked tiles and the walk that groups
    them into rectangles, with a proof that the groups partition the marks.
  - `polygon_tree`: polygons arranged by nesting, and the removal of polygons
    marked like their parent.
  - `gcode_creator`: the budget of worker threads.
  - `sign`: the even-odd rule that decides which areas are cut.
- `tests/` exercises the library.
- `app/` is the program around it: it formats positions and speeds, keeps the
  tool table, writes the G-code, and holds the process-wide thread budget.
