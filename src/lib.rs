//! Integer core of a tile-based Gaussian splatting rasterizer: spherical
//! harmonics bookkeeping, parameter shape validation, tile geometry, and the
//! index stages that order primitives and bin their tile intersections.
pub mod bins;
pub mod dims;
pub mod emit;
pub mod offsets;
pub mod order;
pub mod pack;
pub mod plan;
pub mod sh;
pub mod tiles;
