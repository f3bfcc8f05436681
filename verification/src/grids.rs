//! Builders of regular meshes.

pub mod hex;
pub mod square;
