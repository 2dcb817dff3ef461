# fx_engine

The verified core of the Fotox image editor's engine: the parts of the
engine that compute on plain values, each with a contract that Verus proves.

- `src/` — the library, verified with Verus.
  - `b64`, `strings`: base64 (with `data:` URLs) and the string helpers the
    parsers share.
  - `outline`: the marching-ants outline of the selection (sample grid,
    boundary segments, joining them into polylines, collapsing straight runs).
  - `raster`, `clipboard`, `export`: tiled RGBA images as plain values; the
    clipboard's alpha bounds and its RGBA8 rows; whether the bottom layer
    covers the canvas opaquely; export settings and the Export As choices.
  - `layers`: the layer tree as the Layers panel's rows.
  - `paths`: the Paths panel's actions and Layer ▸ Vector Mask — which
    command an action id asks for.
  - `documents`: open documents, tabs, ids and render snapshots.
  - `thumbs`, `render`, `channels`, `patterns`, `brushes`, `prefs`: thumbnail
    geometry, mip levels, 8/16-bit channels, pattern storage and PNG import,
    sampled brush tips, the recent-files list.
  - `tools`: which tool a UI id is, and what the option bars and keys ask of
    the tools (selection modes, nudges, lasso keys, crop handles and ratios,
    instant turns, blend-mode keys, …).
- `tests/` — tests of the library, run against the compiled crate.
- `app/` — the file and JSON edges around the library: preference, pattern
  and brush library files, the tools' option-bar JSON, the Paths panel's
  action arguments, uploaded files.
