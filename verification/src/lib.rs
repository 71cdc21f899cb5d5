//! Verified discrete core of a classical raster-to-vector inverse rasterizer.

pub mod bitset;
pub mod centerline;
pub mod boundary;
pub mod corner;
pub mod counting;
pub mod forced;
pub mod formation;
pub mod grammar;
pub mod hashing;
pub mod linking;
pub mod marching;
pub mod mask;
pub mod multicolor;
pub mod palette;
pub mod primitive;
pub mod refusals;
mod sealed;
pub mod skeleton;
pub mod stroke_graph;
pub mod support;
pub mod tally;
pub mod topology;
