# rusty_painter

The core of a tiled raster painting program, written in Verus: every
function under `src/` carries a contract that Verus proves.

- `pixel` – premultiplied RGBA pixels and the erase blend.
- `region`, `canvas` – layers of lazily allocated square tiles, reading,
  writing and swapping rectangles of tiles, clearing, merging, floating a
  selection into its own layer, reordering and removing layers, content
  bounds.
- `history` – undo/redo of tile snapshots together with the selection and
  transform in effect; `stroke` – which tiles a dab touches and their
  snapshots; `timeline` – a linear history of whole-canvas snapshots.
- `raster` – Bresenham lines for pixel-perfect strokes.
- `atlas` – packing of canvas tiles into texture atlases and tracking of
  the tiles whose textures must be refreshed.
- `input` – pointer state of the canvas view.
- `export`, `settings`, `tools`, `profiler`, `text` – small settings
  types, file names, timing statistics.

`app/` holds the egui application around the library: windowing, panels,
file and tablet input, and the floating-point parts (brush coverage,
compositing in linear light, colour models, transforms).
