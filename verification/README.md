# rustaria

The verified core of a voxel engine.

- `src/` — the library, verified with Verus: block types and registry, dense chunk
  storage, culled meshing with inter-chunk neighbours, terrain block placement from
  noise samples, chunk lifecycle (generation, dirty marking, unloading) and the
  streaming decisions (desired set, load queue, per-frame budgets), keyboard handling.
- `tests/` — tests run against the compiled library.
- `app/` — the windowed game: noise sampling, camera, frustum culling, lighting and
  the wgpu/winit rendering loop, all of which use floating point or I/O.
