//! Colour swatch extraction.
//!
//! Each pixel becomes a five-dimensional feature point (L*, a*, b*, x, y,
//! each normalised); DBSCAN, answering its neighbourhood queries with a k-d
//! tree, groups the points into clusters; each cluster becomes a swatch, and
//! the swatches are ordered by size.
//!
//! All coordinates, radii and colour channels are fixed-point integers that
//! count millionths of a unit (see `point::UNIT`).
pub mod number;
pub mod text;
pub mod point;
pub mod distance;
pub mod neighbor;
pub mod kdtree;
pub mod linear;
pub mod dbscan;
pub mod union_find;
pub mod white_point;
pub mod rgba;
pub mod color;
pub mod image;
