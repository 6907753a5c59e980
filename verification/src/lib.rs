//! Chunked tile-world generation: terrain classes, cross-chunk autotiling
//! masks and blue-noise point scattering, with machine-checked contracts.
//!
//! - `terrain`, `autotile`: terrain classes, the eight directions and the
//!   mask update a placed tile applies to a neighbour.
//! - `coords`, `tile_grid`: chunk and tile coordinates, the grid of masks.
//! - `chunk_store`, `chunk_manager`, `dimension`: the record of generated
//!   chunks and its hand-over between dimensions.
//! - `generator`, `seams`: generation of a chunk, and what the masks say
//!   afterwards.
//! - `world_generation`, `smoothing`: camera positions, the chunks kept
//!   around the origin, smoothing of variants.
//! - `poisson_model`, `poisson`, `random`: blue-noise sampling.

pub mod terrain;
pub mod autotile;
pub mod coords;
pub mod tile_grid;
pub mod chunk_store;
pub mod chunk_manager;
pub mod dimension;
pub mod generator;
pub mod seams;
pub mod world_generation;
pub mod smoothing;
pub mod poisson_model;
pub mod random;
pub mod poisson;
