//! Encodings of the rows of a dataset.
pub mod compressed;
pub mod delta;
pub mod delta_laws;
pub mod delta_table;
pub mod deviation;
pub mod filters;
pub mod fused_dictionary;
pub mod huffman;
pub mod huffman_data;
pub mod huffman_encode;
pub mod huffman_laws;
pub mod huffman_row_laws;
pub mod huffman_tree;
pub mod layout;
pub mod rle;
pub mod rle_data;
pub mod rle_encode;
pub mod rle_laws;
