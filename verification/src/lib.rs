//! A voxel-world streaming engine: cube-grid chunks of terrain are generated
//! procedurally around a moving observer, interior voxels are culled by an
//! occlusion pass, and the surviving voxels are packed into instance records
//! for a vertex-pulling renderer.
//!
//! The crate is organised leaf-first:
//! - [`pos`] — chunk coordinates and the world-to-chunk conversion,
//! - [`block`] — a single voxel with its colour and visibility flag,
//! - [`alist`] — the coordinate-keyed binding lists both caches build on,
//! - [`chunk`] — generation and occlusion for one chunk,
//! - [`world_map`] — the set of resident chunks around the observer,
//! - [`vox_buffer`] — the coordinate-keyed staging cache of instance records,
//! - [`render`] — per-frame extraction, merge and index-buffer construction.
//!
//! Everything that touches a window, a GPU device or a task pool lives
//! outside this crate; the functions here are pure decisions over plain
//! values, each with a verified contract.

pub mod alist;
pub mod block;
pub mod chunk;
pub mod pos;
pub mod render;
pub mod vox_buffer;
pub mod world_map;
