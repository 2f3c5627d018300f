//! Verified core of a voxel ray-traversal renderer: packing of voxel
//! occupancy into 4×4×8 texels, tile classification, linear octrees,
//! MagicaVoxel loading, the bookkeeping of background voxelization jobs,
//! model discovery and persisted scene settings.
pub mod tile_compression;
pub mod octree;
pub mod vox;
pub mod packing;
pub mod frame_timer;
pub mod zoom;
pub mod formatting;
pub mod model;
pub mod render_types;
pub mod grids;
pub mod scene_state;
pub mod voxel_manager;
pub mod discovery;
