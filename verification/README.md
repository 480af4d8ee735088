# spryteo

Raster analysis for turning sprite sheets and line drawings into vector
artwork, written in Verus: each function of the library carries a contract
that the verifier proves.

## Layout

- `src/` — the verified library.
  - `raster`, `preprocess`: images, alpha handling, cropping, and softening
    compression-block seams.
  - `decode`, `resample`: decoding through the `image` and `moxcms` crates,
    and resizing; the calls into those crates sit behind small trusted
    wrappers whose contracts are documented beside them.
  - `quant`: the integer core of classification and colour quantization,
    exact colour masks, layer stacking and the background policy.
  - `sheet`: contact-sheet segmentation (chroma masks, projection bands,
    lattices, ink clusters, text bands, cells, dominant colour).
  - `stroke`: skeleton thinning, spur pruning, stroke graphs, junction
    merging and Eulerian traversal.
  - `semantic`: the bookkeeping of semantic regrouping.
  - `counting`: counting and summing lemmas shared by the proofs.
- `tests/` — tests run against the compiled library.
- `app/` — the floating-point and I/O parts around the library (colour
  science, thresholds, curve fitting, serialisation); it calls the verified
  functions for everything they cover.
