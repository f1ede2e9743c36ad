//! The choice of base bits, and a pipeline built on it.
pub mod compress;
pub mod condense;
pub mod condensed_laws;
pub mod condensed_rows;
pub mod encoder;
pub mod file_laws;
pub mod group_sum_laws;
pub mod implementation;
pub mod interface;
pub mod ordering;
pub mod ordering_laws;
pub mod search;
pub mod selection;
pub mod selection_laws;
pub mod turn_laws;
