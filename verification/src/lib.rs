pub mod circuit;
pub mod field;
pub mod merkle_tree;
pub mod params;
pub mod utils;
pub mod witness;
