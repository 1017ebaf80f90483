//! Core logic of a voxel engine: block types, chunk storage, culled meshing,
//! terrain placement, chunk lifecycle and chunk streaming decisions.
pub mod block;
pub mod chunk;
pub mod mesh;
pub mod world;
pub mod world_manager;
pub mod debug;
pub mod input;
pub mod streaming;
