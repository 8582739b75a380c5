use vstd::prelude::*;
use vstd::utf8::{valid_utf8, decode_utf8};
use crate::types::{TileType, Error};
use crate::gzip::{gunzip, gzip_inflate};

verus! {

/// Whether `s` is a well-formed JSON document.  Well-formedness is a
/// function of the text alone.
pub uninterp spec fn json_ok(s: Seq<char>) -> bool;

/// Relies on `serde_json::from_str::<serde_json::Value>`: it accepts
/// exactly the well-formed JSON documents, deciding by the text alone.
#[verifier::external_body]
fn json_parses(s: &str) -> (r: bool)
    ensures
        r == json_ok(s@),
{
    serde_json::from_str::<serde_json::Value>(s).is_ok()
}

/// Relies on `String::from_utf8`: it succeeds exactly on valid UTF-8 and
/// decodes the bytes to the code points that the UTF-8 rules give.
#[verifier::external_body]
fn string_from_utf8(data: Vec<u8>) -> (r: Result<String, Error>)
    ensures
        match r {
            Ok(s) => valid_utf8(data@) && s@ == decode_utf8(data@),
            Err(e) => !valid_utf8(data@) && e == Error::Utf8Invalid,
        },
{
    match String::from_utf8(data) {
        Ok(s) => Ok(s),
        Err(_) => Err(Error::Utf8Invalid),
    }
}

/// The archive's metadata document, kept as its raw JSON text.
#[derive(Debug)]
pub struct Metadata {
    pub json: String,
}

/// Parsing an inflated metadata blob: the bytes must be UTF-8, and when
/// the archive holds MVT tiles the text must additionally be JSON.
pub open spec fn spec_parse_metadata(data: Seq<u8>, tile_type: TileType) -> Result<
    Seq<char>,
    Error,
> {
    if !valid_utf8(data) {
        Err(Error::Utf8Invalid)
    } else if tile_type == TileType::MVT && !json_ok(decode_utf8(data)) {
        Err(Error::JsonInvalid)
    } else {
        Ok(decode_utf8(data))
    }
}

/// Parsing a gzip-compressed metadata blob: inflate, then parse.
pub open spec fn spec_parse_metadata_compressed(s: Seq<u8>, tile_type: TileType) -> Result<
    Seq<char>,
    Error,
> {
    match gzip_inflate(s) {
        None => Err(Error::DecompressionFailed),
        Some(u) => spec_parse_metadata(u, tile_type),
    }
}

impl Metadata {
    /// Decodes an inflated metadata blob into its text.
    pub fn parse(data: Vec<u8>, tile_type: TileType) -> (r: Result<Metadata, Error>)
        ensures
            match r {
                Ok(m) => spec_parse_metadata(data@, tile_type) == Ok::<Seq<char>, Error>(m.json@),
                Err(e) => spec_parse_metadata(data@, tile_type) == Err::<Seq<char>, Error>(e),
            },
    {
        let metadata_str = match string_from_utf8(data) {
            Ok(s) => s,
            Err(e) => {
                return Err(e);
            },
        };
        if tile_type == TileType::MVT {
            if !json_parses(metadata_str.as_str()) {
                return Err(Error::JsonInvalid);
            }
        }
        Ok(Metadata { json: metadata_str })
    }

    /// Inflates a gzip-compressed metadata blob, then decodes it.
    pub fn parse_compressed(data: &[u8], tile_type: TileType) -> (r: Result<Metadata, Error>)
        ensures
            match r {
                Ok(m) => spec_parse_metadata_compressed(data@, tile_type) == Ok::<
                    Seq<char>,
                    Error,
                >(m.json@),
                Err(e) => spec_parse_metadata_compressed(data@, tile_type) == Err::<
                    Seq<char>,
                    Error,
                >(e),
            },
    {
        let uncompressed = match gunzip(data) {
            Ok(u) => u,
            Err(e) => {
                return Err(e);
            },
        };
        Self::parse(uncompressed, tile_type)
    }
}

} // verus!
