# Flwing

Flwing is a vector graphics editor. This crate holds its core as a library
verified with Verus, and the editor program around it.

- `src/` — the verified library: Bezier paths and their bounding boxes, the
  `.flw` file frame, the interface texts in Korean and English, the font
  manager (families, styles, font files read with `ttf-parser`), fonts
  embedded in documents, mesh gradient grids, SVG path data and colours read
  from traced images, and text shaping in font units.
- `app/` — the editor window (eframe/egui), file dialogs and file I/O, the
  document model with its floating-point geometry, rendering with lyon, and
  image tracing.
- `tests/` — tests of the library.

Geometry in the library is kept in integer canvas units and colours as 8-bit
channels; the editor converts its floating-point values at the boundary. SVG
path data is read into commands whose numbers keep their exact text; the
editor turns them into floating-point coordinates.
