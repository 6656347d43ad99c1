//! A voxel world engine: chunks of blocks, the world-space to chunk-space
//! mapping, face culling, ambient occlusion, mesh building, terrain strata
//! and the streaming decisions that keep chunks loaded around a viewpoint.
pub mod bits;
pub mod block;
pub mod chunk;
pub mod chunk_loading;
pub mod chunk_manager;
pub mod coords;
pub mod mesh;
pub mod occlusion;
pub mod terrain;
