//! Conversion of graph-local variant coordinates into linear reference
//! coordinates, chromosome-name normalization, and header inference.

pub mod text;
pub mod normalize;
pub mod stores;
pub mod resolve;
pub mod infer;
pub mod header;
pub mod records;
