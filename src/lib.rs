//! A file descriptor that pairs a file's metadata with the data map that
//! self-encryption produced for its content, with a total order and a
//! lossless binary encoding.
pub mod codec;
pub mod data_map;
pub mod file;
pub mod metadata;
pub mod order;

pub use data_map::{ChunkInfo, DataMap};
pub use file::{DecodeError, File};
pub use metadata::Metadata;
