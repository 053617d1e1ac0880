use vstd::prelude::*;

use crate::error::Error;

verus! {

/// The compression schemes a chunk's payload may be stored with.
#[derive(Debug, Clone, Copy, PartialEq, Eq, Structural)]
pub enum CompressionScheme {
    Gzip,
    Zlib,
    Uncompressed,
}

/// The scheme that an on-disk tag byte names, if any.
pub open spec fn scheme_of_tag(tag: u8) -> Option<CompressionScheme> {
    if tag == 1 {
        Some(CompressionScheme::Gzip)
    } else if tag == 2 {
        Some(CompressionScheme::Zlib)
    } else if tag == 3 {
        Some(CompressionScheme::Uncompressed)
    } else {
        None
    }
}

impl CompressionScheme {
    /// Decodes a scheme tag byte: 1 is Gzip, 2 is Zlib, 3 is Uncompressed.
    pub fn from_tag(tag: u8) -> (r: Option<CompressionScheme>)
        ensures
            r == scheme_of_tag(tag),
    {
        if tag == 1 {
            Some(CompressionScheme::Gzip)
        } else if tag == 2 {
            Some(CompressionScheme::Zlib)
        } else if tag == 3 {
            Some(CompressionScheme::Uncompressed)
        } else {
            None
        }
    }
}

/// The five-byte prefix in front of every stored chunk payload.
#[derive(Debug, Clone, Copy)]
pub struct ChunkMeta {
    /// Length of the payload that follows the prefix (the on-disk length
    /// field counts the scheme byte as well; this does not).
    pub compressed_len: u32,
    pub compression_scheme: CompressionScheme,
}

/// The big-endian unsigned integer held in the first four bytes of `b`.
pub open spec fn be_u32(b: Seq<u8>) -> int {
    b[0] * 0x100_0000 + b[1] * 0x1_0000 + b[2] * 0x100 + b[3]
}

/// What the chunk meta prefix at the start of `b` decodes to.
pub open spec fn meta_of(b: Seq<u8>) -> Result<ChunkMeta, Error> {
    if b.len() < 5 {
        Err(Error::InsufficientData)
    } else if scheme_of_tag(b[4]) is None || be_u32(b) == 0 {
        Err(Error::InvalidChunkMeta)
    } else {
        Ok(
            ChunkMeta {
                compressed_len: (be_u32(b) - 1) as u32,
                compression_scheme: scheme_of_tag(b[4])->Some_0,
            },
        )
    }
}

impl ChunkMeta {
    /// Parses the prefix: a four-byte big-endian length that includes the
    /// scheme byte, then the scheme tag. A zero length cannot include the
    /// tag and is rejected like an unknown tag.
    pub fn new(data: &[u8]) -> (r: Result<ChunkMeta, Error>)
        ensures
            r == meta_of(data@),
    {
        if data.len() < 5 {
            return Err(Error::InsufficientData);
        }
        let len: u32 = (data[0] as u32) * 0x100_0000 + (data[1] as u32) * 0x1_0000 + (data[2] as u32)
            * 0x100 + (data[3] as u32);
        let scheme = CompressionScheme::from_tag(data[4]);
        match scheme {
            None => Err(Error::InvalidChunkMeta),
            Some(s) => {
                if len == 0 {
                    Err(Error::InvalidChunkMeta)
                } else {
                    Ok(ChunkMeta { compressed_len: len - 1, compression_scheme: s })
                }
            },
        }
    }
}

} // verus!
