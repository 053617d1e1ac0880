use vstd::prelude::*;
use vstd::string::*;

use crate::files::decimal_of;

verus! {

/// What went wrong while reading bytes out of a region's backing data.
#[derive(Debug)]
pub enum IoError {
    /// The data ended before a read could be completed.
    UnexpectedEof,
    /// A compressed stream could not be decoded; carries the decoder's message.
    Other(String),
}

/// Failures of the region decoder.
#[derive(Debug)]
pub enum Error {
    /// Fewer than five bytes were given where a chunk meta prefix was expected.
    InsufficientData,
    /// A read ran past the end of the data, or a payload failed to decompress.
    IO(IoError),
    /// A region-relative chunk coordinate lies outside `0..32`.
    InvalidOffset(usize, usize),
    /// The chunk meta prefix holds an unknown scheme tag or an impossible length.
    InvalidChunkMeta,
    /// The scheme tag is known but this decoder does not decompress it.
    UnsupportedCompression,
    /// The chunk's sector table entry marks the slot as unoccupied.
    ChunkNotFound,
}

/// Relies on the `Display` of `usize` (through `to_string`): its decimal digits.
#[verifier::external_body]
fn usize_text(v: usize) -> (r: String)
    ensures
        r@ == decimal_of(v as int),
{
    v.to_string()
}

/// The readable description of an error.
pub open spec fn error_text(e: Error) -> Seq<char> {
    match e {
        Error::InsufficientData => "insufficient data to parse chunk metadata"@,
        Error::IO(IoError::UnexpectedEof) => "io error: unexpected end of data"@,
        Error::IO(IoError::Other(m)) => "io error: "@ + m@,
        Error::InvalidOffset(x, z) => "invalid offset: x = "@ + decimal_of(x as int) + ", z = "@
            + decimal_of(z as int),
        Error::InvalidChunkMeta => "compression scheme was not recognised for chunk"@,
        Error::UnsupportedCompression => "compression scheme is not supported for chunk"@,
        Error::ChunkNotFound => "chunk not found in region"@,
    }
}

impl Error {
    /// A readable description of the error.
    pub fn message(&self) -> (r: String)
        ensures
            r@ == error_text(*self),
    {
        match self {
            Error::InsufficientData => String::from_str("insufficient data to parse chunk metadata"),
            Error::IO(IoError::UnexpectedEof) => String::from_str("io error: unexpected end of data"),
            Error::IO(IoError::Other(m)) => String::from_str("io error: ").concat(m.as_str()),
            Error::InvalidOffset(x, z) => {
                let r = String::from_str("invalid offset: x = ");
                let r = r.concat(usize_text(*x).as_str());
                let r = r.concat(", z = ");
                r.concat(usize_text(*z).as_str())
            },
            Error::InvalidChunkMeta => String::from_str(
                "compression scheme was not recognised for chunk",
            ),
            Error::UnsupportedCompression => String::from_str(
                "compression scheme is not supported for chunk",
            ),
            Error::ChunkNotFound => String::from_str("chunk not found in region"),
        }
    }
}

} // verus!
