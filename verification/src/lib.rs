//! Generalized-deduplication compression of tables and images: the verified core.
pub mod analytics;
pub mod base_bits;
pub mod base_table;
pub mod base_table_builder;
pub mod bits;
pub mod byte_laws;
pub mod bytes;
pub mod data;
pub mod dataset;
pub mod decompression;
pub mod decompression_laws;
pub mod decompression_rows;
pub mod encoding;
pub mod entropy;
pub mod error;
pub mod file_format;
pub mod filter_pipeline;
pub mod image_preprocessor;
pub mod maps;
pub mod numbers;
pub mod pipeline;
pub mod pipeline_profiles;
pub mod pipeline_runner;
pub mod tabular_processor;
pub mod text;
pub mod timing;
pub mod utils;

pub use bits::BitStream;
pub use error::EntroGdError;
