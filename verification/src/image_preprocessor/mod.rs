//! Images as rows of grouped pixels.
pub mod color;
pub mod color_laws;
pub mod group_laws;
pub mod grouping;
pub mod geometry;
pub mod builder;
pub mod restore;
