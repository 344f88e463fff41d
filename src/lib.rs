//! A chunked voxel world: exact grid traversal of rays, per-chunk block
//! storage with a cached visibility rule, terrain built from column heights,
//! and the bookkeeping that streams chunks in around a camera.
pub mod coords;
pub mod march;
pub mod block;
pub mod storage;
pub mod chunk;
pub mod generator;
pub mod world;
