# mazalot

The integer core of a family of seed-driven pixel-art generators (planets,
orbiting systems, moons, comets, asteroid belts, galaxy maps), written in Verus
with every function's contract proved.

## Layout

- `src/` — the verified library.
  - `hash` — the lattice hash, its finalizer (proved invertible) and the
    per-system seeds of a galaxy (proved distinct).
  - `lanes` — the four-lane `u32` vector; the four-lane hash equals the scalar
    hash lane for lane.
  - `dither` — the 8×8 Bayer matrix (a permutation of `0..64`).
  - `scene` — the seeded draw sequence, sprite tiles, on-screen clipping, the
    run compositor and additive points.
  - `backdrop` — the scrolling backdrop caches: slide, exposed strips, the
    keep/slide/rebuild decision, and the proof that slide-and-repaint equals a
    fresh paint.
  - `galaxy` — hyperlanes (Prim's tree, proved spanning and greedy), lane
    degrees, farthest-point region anchors, nearest-anchor regions and their
    radial naming.
  - `sheet` — pictures, the contact-sheet grid (cells inside the canvas, never
    overlapping, opaque cells shown verbatim), the nearest upscale and GIF frame
    parameters, with the `image` crate doing the pixel work.
  - `planet`, `kinds` — the discrete type tables, GPU/WebGL buffer layouts and
    archetype names.
- `tests/` — tests of the library on concrete values.
- `app/` — the float renderers' glue and the I/O: unit-interval noise, screen
  placement of tiles, the backdrop cache driver, galaxy placement, and the
  GIF/PNG writers with their render pool.
