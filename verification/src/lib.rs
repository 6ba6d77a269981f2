//! Triangulation and three-coloring of simple polygons in the integer plane.
//!
//! A polygon is cut into horizontal slabs by a plane sweep, partitioned into
//! y-monotone pieces, triangulated, and held as a doubly-connected edge list
//! whose vertices are then colored with three colors so that every triangle
//! sees all three. The smallest color class is a guard set for the polygon.

pub mod arena;
pub mod coloring;
pub mod dcel;
pub mod dual;
pub mod gallery;
pub mod generate;
pub mod keys;
pub mod mesh;
pub mod monotone;
pub mod outline;
pub mod polygon;
pub mod primitives;
pub mod repeat;
pub mod slabs;
pub mod split;
pub mod sweep;
pub mod tally;
