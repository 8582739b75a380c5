use vstd::prelude::*;

verus! {

/// Everything that can go wrong while reading an archive.
///
/// Parse-time errors are unrecoverable for the archive at hand; a missing
/// tile is reported as `None` by lookup, never as an error.
#[derive(Clone, Copy, Debug, PartialEq, Eq, Structural)]
pub enum Error {
    /// Not enough bytes for a fixed-size field or for a varint.
    Truncated,
    /// A varint ran past the ten bytes that fit in 64 bits.
    Overflow,
    /// The archive does not start with the expected signature.
    InvalidMagic,
    /// A compression or tile-type byte matches no known variant.
    InvalidEnum,
    /// A directory blob is inconsistent with its own entry count.
    Malformed,
    /// A compressed region did not inflate.
    DecompressionFailed,
    /// The metadata blob is not valid UTF-8.
    Utf8Invalid,
    /// The metadata blob is not valid JSON although the tile type demands it.
    JsonInvalid,
    /// A computed offset/length pair reaches past the end of the archive.
    OutOfBounds,
}

/// Compression scheme of a region of the archive.
#[derive(Clone, Copy, Debug, PartialEq, Eq, Structural)]
pub enum Compression {
    Unknown,
    Uncompressed,
    Gzip,
    Brotli,
    Zstd,
}

/// The compression variant that a header byte denotes, if any.
pub open spec fn spec_compression_from(v: u8) -> Result<Compression, Error> {
    if v == 0 {
        Ok(Compression::Unknown)
    } else if v == 1 {
        Ok(Compression::Uncompressed)
    } else if v == 2 {
        Ok(Compression::Gzip)
    } else if v == 3 {
        Ok(Compression::Brotli)
    } else if v == 4 {
        Ok(Compression::Zstd)
    } else {
        Err(Error::InvalidEnum)
    }
}

impl Compression {
    /// Decodes the compression byte of the header.
    pub fn try_from(value: u8) -> (r: Result<Compression, Error>)
        ensures
            r == spec_compression_from(value),
    {
        match value {
            0 => Ok(Compression::Unknown),
            1 => Ok(Compression::Uncompressed),
            2 => Ok(Compression::Gzip),
            3 => Ok(Compression::Brotli),
            4 => Ok(Compression::Zstd),
            _ => Err(Error::InvalidEnum),
        }
    }
}

/// Content type of the tile payloads.
#[derive(Clone, Copy, Debug, PartialEq, Eq, Structural)]
pub enum TileType {
    Unknown,
    MVT,
    PNG,
    JPEG,
    WebP,
    AVIF,
}

/// The tile-type variant that a header byte denotes, if any.
pub open spec fn spec_tile_type_from(v: u8) -> Result<TileType, Error> {
    if v == 0 {
        Ok(TileType::Unknown)
    } else if v == 1 {
        Ok(TileType::MVT)
    } else if v == 2 {
        Ok(TileType::PNG)
    } else if v == 3 {
        Ok(TileType::JPEG)
    } else if v == 4 {
        Ok(TileType::WebP)
    } else if v == 5 {
        Ok(TileType::AVIF)
    } else {
        Err(Error::InvalidEnum)
    }
}

impl TileType {
    /// Decodes the tile-type byte of the header.
    pub fn try_from(value: u8) -> (r: Result<TileType, Error>)
        ensures
            r == spec_tile_type_from(value),
    {
        match value {
            0 => Ok(TileType::Unknown),
            1 => Ok(TileType::MVT),
            2 => Ok(TileType::PNG),
            3 => Ok(TileType::JPEG),
            4 => Ok(TileType::WebP),
            5 => Ok(TileType::AVIF),
            _ => Err(Error::InvalidEnum),
        }
    }
}

} // verus!
