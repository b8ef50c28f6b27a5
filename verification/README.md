# mtrd

Metro-map manifests, verified with Verus.

- `src/text.rs` — characters, whitespace, trimming, line splitting and UTF-8
  byte offsets over `Seq<char>`.
- `src/manifest_format.rs` — the compact canonical YAML style: block-style
  positions become `position: [x, y]`, and each locale's names become a flow
  sequence. Name lists are read with `serde_yaml` and quoted with
  `serde_json`.
- `src/manifest_laws.rs` — fixed points of the canonical style: the names
  step, and the whole style exactly when no block-style position is left.
- `src/schematic/` — station ports, octilinear axes and their rotations,
  lines and paths, and the structural rules of a path.
- `src/topology.rs` — topology options without lengths, and how a
  background is read from and written as its fields.
- `app/` — serde models, `f64` coordinates and lengths, and the geometry
  that measures legs, corners and bounds before the library decides.
