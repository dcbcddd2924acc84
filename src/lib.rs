//! Longest simple path search over bounded, low-degree, maze-derived graphs,
//! with the small pieces of bookkeeping that the maze renderer shares: texture
//! row alignment, resource and memory accounting, frame statistics, material
//! texture names and animation timing.

pub mod animation;
pub mod bitset;
pub mod clock;
pub mod exact;
pub mod faces;
pub mod graph;
pub mod heuristic;
pub mod improve;
pub mod labels;
pub mod laws;
pub mod materials;
pub mod path;
pub mod refine;
pub mod resources;
pub mod solve;
pub mod settings;
pub mod stats;
pub mod texture;
