//! Baseline JPEG codec: sequential, 8 bits per sample, one or three components.
pub mod amplitude;
pub mod bits;
pub mod decode;
pub mod encode;
pub mod error;
pub mod extension;
pub mod frame;
pub mod header;
pub mod huffman;
pub mod placement;
pub mod reader;
pub mod round_trip;
pub mod scan;
pub mod segments;
pub mod skipping;
pub mod transport;
pub mod writer;
pub mod zigzag;
