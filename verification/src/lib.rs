//! Generalized maps (G-maps) and the combinatorics of flat folding.
//!
//! A G-map describes a cellular subdivision of a surface by darts and
//! involutions. On top of it this crate builds orbit enumeration, attribute
//! maps keyed by orbits, grid and polygon builders, the combinatorial part of
//! crease-pattern ingest and folding, and the planar constraint graph whose
//! colourings are the mountain/valley assignments of a flat-foldable graph.

pub mod circular;
pub mod clauses;
pub mod dart;
pub mod examples;
pub mod finite;
pub mod folding;
pub mod plain;
pub mod shortlex;
pub mod sums;
pub mod model;
pub mod gmap;
pub mod graph;
pub mod grids;
pub mod listing;
pub mod orbit;
pub mod orbit_map;
pub mod orient;
pub mod sew;
pub mod shrink;
