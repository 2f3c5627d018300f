# voxel_ray_traversal

The CPU side of a voxel ray-traversal renderer, written in Verus: every
function in `src/` carries a contract. Verus proves them all except those of
the few small wrappers around `std` and `dot_vox` calls, whose contracts are
taken as given.

- `packing`: the packed occupancy layout (4×4×8 voxels per `u128` texel).
- `tile_compression`: classification of texels into empty, uniform and dense tiles.
- `octree`: a linear octree over a dense occupancy grid.
- `vox`: conversion of MagicaVoxel `.vox` files (parsed with `dot_vox`).
- `voxel_manager`, `grids`: the bookkeeping of the grids filled by background
  voxelization jobs, and the packing of their palettes.
- `discovery`, `scene_state`, `model`: which model files are loaded and the
  persisted scene settings.
- `zoom`, `frame_timer`, `formatting`, `render_types`: depth sampling around
  the focus, frame rate, number formatting and plain render data.

`app/` is a headless driver around the library: directory listing, PLY mesh
voxelization (floating point), the job threads, JSON settings and image output.
