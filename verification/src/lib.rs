//! A codec for chunk-based image containers: four-letter chunk types,
//! length-prefixed checksummed chunks, and the container that holds them
//! behind a fixed eight-byte signature.

pub mod chunk;
pub mod chunk_type;
pub mod commands;
pub mod png;
