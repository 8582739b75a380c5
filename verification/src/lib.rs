//! Read-only access to PMTiles archives: a single-file container holding a
//! fixed binary header, a varint/delta-encoded tile directory sorted by
//! Hilbert-curve tile ids, a metadata blob, and raw tile payloads.

pub mod archive;
pub mod directory;
pub mod gzip;
pub mod header;
pub mod hilbert;
pub mod metadata;
pub mod tileid;
pub mod types;
pub mod varint;
