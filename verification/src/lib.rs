//! A loose octree spatial index over integer coordinates, together with a
//! rectangle map and a few small geometry, polygon and fixed-width hash
//! utilities.
//!
//! The crate is verified with Verus: the contracts state what each function
//! returns or changes, and the proofs show that the code meets them for every
//! input. Two things are taken on trust and marked as such where they stand:
//! the hexadecimal coding of the `hex` crate in `hash`, and the slab of the
//! `slab` crate in `rect_map`.

pub mod arena;
pub mod geometry;
pub mod node;
pub mod octree;
pub mod links;
pub mod dirty;
pub mod place;
pub mod ops;
pub mod moving;
pub mod rekey;
pub mod collect;
pub mod query;
pub mod census;
pub mod hash;
pub mod cg2d;
pub mod polygon;
pub mod laws;
pub mod rect_map;
