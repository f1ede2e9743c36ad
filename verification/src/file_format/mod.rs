//! File formats of compressed data.
pub mod bit_io;
pub mod egd;
pub mod egd_features;
pub mod egd_laws;
pub mod egd_rows;
pub mod egd_table;
pub mod filters;
pub mod igd;
pub mod path_utils;
pub mod row_access_laws;
pub mod storable_laws;
pub mod tags;
pub mod tgd;
pub mod whole_files;
pub mod whole_files_laws;
