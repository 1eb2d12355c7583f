# darkroom_core

The verified core of a non-destructive RAW photo editor, written in Verus: the parts of the
develop pipeline, the panorama stitcher and the preset importer that are integer logic, with
their behaviour stated in contracts and proved.

## Layout

- `src/` — the library, verified by Verus.
  - Preset import: `lua` (a depth-bounded reader of the Lua tables in `.lrtemplate` files),
    `lr_template`, `xml` (an owned model of an XML tree read by `roxmltree`), `lr_xmp`
    (Camera Raw Settings in `.xmp` files), `crs` (the settings both readers yield), `registry`
    (size cap, format detection, reading), `report` (the import report), `scope` (module
    groups and their fields), `text` (UTF-8, whitespace, float-literal grammar), `preset_error`.
  - Panorama: `matching` (binary descriptors, mutual nearest neighbours with the ratio test),
    `rng` and `ransac` (the seeded sample draw), `unionfind` and `graph` (components, maximum
    spanning tree), `detect` (panorama groups of a shoot), `crop` (largest inscribed
    rectangle), `seam` (seam-map addressing, pair order, ownership across a seam, mask
    dilation), `cut` (the graph-cut seam: flow network, maximum flow from `pathfinding`,
    residual search), `align`, `pano_error`.
  - Pipeline: `pixels` (RGBA8 buffers: LUT, row padding, crop, frame, histogram), `encode`
    (PNG / JPEG through `image`), `mask`.
- `tests/` — tests of the library.
- `app/` — ordinary Rust around the library: the floating-point parts (preset values and JSON,
  group confidences, image geometry) and the importer registry with its trait objects.
