//! What can go wrong while a JPEG file is read or written.
use vstd::prelude::*;

verus! {

/// Why a file could not be decoded, encoded, read or written. Variants with a number carry the
/// operating system's error number.
#[derive(Debug, Clone, Copy, PartialEq, Eq, Structural)]
pub enum Error {
    UnsupportedPlatform,
    Open(i32),
    Stat(i32),
    Empty,
    Mapping(i32),
    NotJpeg,
    Truncated,
    Unsupported,
    BadHuffman,
    Encode,
    Write(i32),
}

} // verus!
