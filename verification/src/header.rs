use vstd::prelude::*;
use vstd::arithmetic::power2::pow2;
use crate::types::{Compression, TileType, Error, spec_compression_from, spec_tile_type_from};

verus! {

/// The size of the fixed archive prologue in bytes.
pub const HEADER_SIZE: usize = 127;

/// Little-endian value of the `n` bytes of `s` starting at `off`.
pub open spec fn le_value(s: Seq<u8>, off: int, n: int) -> nat
    decreases n,
{
    if n <= 0 {
        0
    } else {
        s[off] as nat + 256 * le_value(s, off + 1, n - 1)
    }
}

/// A little-endian value of `n` bytes stays below `2^(8n)`.
pub proof fn lemma_le_value_bound(s: Seq<u8>, off: int, n: int)
    requires
        0 <= n,
    ensures
        le_value(s, off, n) < pow2((8 * n) as nat),
    decreases n,
{
    vstd::arithmetic::power2::lemma2_to64();
    if n > 0 {
        lemma_le_value_bound(s, off + 1, n - 1);
        let p = pow2((8 * (n - 1)) as nat) as int;
        assert(pow2((8 * n) as nat) == 256 * p) by {
            vstd::arithmetic::power2::lemma_pow2_adds(8, (8 * (n - 1)) as nat);
        }
        let v = le_value(s, off + 1, n - 1) as int;
        assert(256 * v <= 256 * (p - 1)) by (nonlinear_arith)
            requires
                v <= p - 1,
        ;
    }
}

/// Two byte runs with the same contents have the same little-endian value.
pub proof fn lemma_le_value_equal(s1: Seq<u8>, o1: int, s2: Seq<u8>, o2: int, n: int)
    requires
        0 <= o1,
        o1 + n <= s1.len(),
        0 <= o2,
        o2 + n <= s2.len(),
        s1.subrange(o1, o1 + n) == s2.subrange(o2, o2 + n),
    ensures
        le_value(s1, o1, n) == le_value(s2, o2, n),
    decreases n,
{
    if n > 0 {
        assert(s1[o1] == s2[o2]) by {
            assert(s1.subrange(o1, o1 + n)[0] == s1[o1]);
            assert(s2.subrange(o2, o2 + n)[0] == s2[o2]);
        }
        assert(s1.subrange(o1 + 1, o1 + n) =~= s2.subrange(o2 + 1, o2 + n)) by {
            assert forall|j: int| 0 <= j < n - 1 implies #[trigger] s1.subrange(o1 + 1, o1 + n)[j]
                == s2.subrange(o2 + 1, o2 + n)[j] by {
                assert(s1.subrange(o1 + 1, o1 + n)[j] == s1.subrange(o1, o1 + n)[j + 1]);
                assert(s2.subrange(o2 + 1, o2 + n)[j] == s2.subrange(o2, o2 + n)[j + 1]);
            }
        }
        lemma_le_value_equal(s1, o1 + 1, s2, o2 + 1, n - 1);
    }
}

/// Signed degrees-times-1e7 value of the 4 little-endian bytes at `off`,
/// read as two's complement.
pub open spec fn le_i32(s: Seq<u8>, off: int) -> int {
    let u = le_value(s, off, 4);
    if u < 0x80000000 {
        u as int
    } else {
        u - 0x100000000
    }
}

/// The seven bytes every archive starts with.
pub open spec fn spec_magic() -> Seq<u8> {
    seq![0x50u8, 0x4du8, 0x54u8, 0x69u8, 0x6cu8, 0x65u8, 0x73u8]
}

/// The fixed 127-byte archive prologue, decoded.  Offsets and lengths are
/// absolute positions in the archive; geographic coordinates are kept as
/// the stored signed fixed-point degrees-times-1e7 values, so that callers
/// decide how to turn them into fractional degrees.
#[derive(Clone, Copy, Debug, PartialEq, Eq, Structural)]
pub struct Header {
    pub version: u8,
    pub root_dir_offset: u64,
    pub root_dir_length: u64,
    pub metadata_offset: u64,
    pub metadata_length: u64,
    pub leaf_dirs_offset: u64,
    pub leaf_dirs_length: u64,
    pub tile_data_offset: u64,
    pub tile_data_length: u64,
    pub num_addressed_tiles: u64,
    pub num_tile_entries: u64,
    pub num_tile_contents: u64,
    pub clustered: u8,
    pub internal_compression: Compression,
    pub tile_compression: Compression,
    pub tile_type: TileType,
    pub min_zoom: u8,
    pub max_zoom: u8,
    pub min_lon_e7: i32,
    pub min_lat_e7: i32,
    pub max_lon_e7: i32,
    pub max_lat_e7: i32,
    pub center_zoom: u8,
    pub center_lon_e7: i32,
    pub center_lat_e7: i32,
}

/// What parsing the prologue yields: the header exactly as laid down in the
/// byte layout, or the first error in checking order (length, magic,
/// compression bytes, tile-type byte).
pub open spec fn spec_parse_header(s: Seq<u8>) -> Result<Header, Error> {
    if s.len() < 127 {
        Err(Error::Truncated)
    } else if s.subrange(0, 7) != spec_magic() {
        Err(Error::InvalidMagic)
    } else {
        match spec_compression_from(s[0x61]) {
            Err(e) => Err(e),
            Ok(internal_compression) => match spec_compression_from(s[0x62]) {
                Err(e) => Err(e),
                Ok(tile_compression) => match spec_tile_type_from(s[0x63]) {
                    Err(e) => Err(e),
                    Ok(tile_type) => Ok(
                        Header {
                            version: s[0x07],
                            root_dir_offset: le_value(s, 0x08, 8) as u64,
                            root_dir_length: le_value(s, 0x10, 8) as u64,
                            metadata_offset: le_value(s, 0x18, 8) as u64,
                            metadata_length: le_value(s, 0x20, 8) as u64,
                            leaf_dirs_offset: le_value(s, 0x28, 8) as u64,
                            leaf_dirs_length: le_value(s, 0x30, 8) as u64,
                            tile_data_offset: le_value(s, 0x38, 8) as u64,
                            tile_data_length: le_value(s, 0x40, 8) as u64,
                            num_addressed_tiles: le_value(s, 0x48, 8) as u64,
                            num_tile_entries: le_value(s, 0x50, 8) as u64,
                            num_tile_contents: le_value(s, 0x58, 8) as u64,
                            clustered: s[0x60],
                            internal_compression,
                            tile_compression,
                            tile_type,
                            min_zoom: s[0x64],
                            max_zoom: s[0x65],
                            min_lon_e7: le_i32(s, 0x66) as i32,
                            min_lat_e7: le_i32(s, 0x6A) as i32,
                            max_lon_e7: le_i32(s, 0x6E) as i32,
                            max_lat_e7: le_i32(s, 0x72) as i32,
                            center_zoom: s[0x76],
                            center_lon_e7: le_i32(s, 0x77) as i32,
                            center_lat_e7: le_i32(s, 0x7B) as i32,
                        },
                    ),
                },
            },
        }
    }
}

/// Assembles a `u64` from 8 little-endian bytes.
pub fn to_u64_le(bytes: &[u8]) -> (r: u64)
    requires
        bytes@.len() == 8,
    ensures
        r == le_value(bytes@, 0, 8),
{
    proof {
        vstd::arithmetic::power2::lemma2_to64();
        vstd::arithmetic::power2::lemma2_to64_rest();
    }
    let mut r: u64 = 0;
    let mut i: usize = 8;
    while i > 0
        invariant
            i <= 8,
            bytes@.len() == 8,
            r == le_value(bytes@, i as int, 8 - i),
        decreases i,
    {
        proof {
            lemma_le_value_bound(bytes@, i as int, 8 - i);
            lemma_le_value_bound(bytes@, i - 1, 8 - (i - 1));
            vstd::arithmetic::power2::lemma2_to64();
            vstd::arithmetic::power2::lemma2_to64_rest();
        }
        i = i - 1;
        r = r * 256 + (bytes[i] as u64);
    }
    r
}

/// Assembles the signed fixed-point coordinate held in 4 little-endian
/// bytes.
fn to_i32_le(bytes: &[u8]) -> (r: i32)
    requires
        bytes@.len() == 4,
    ensures
        r == le_i32(bytes@, 0),
{
    proof {
        vstd::arithmetic::power2::lemma2_to64();
    }
    let mut u: u32 = 0;
    let mut i: usize = 4;
    while i > 0
        invariant
            i <= 4,
            bytes@.len() == 4,
            u == le_value(bytes@, i as int, 4 - i),
        decreases i,
    {
        proof {
            lemma_le_value_bound(bytes@, i as int, 4 - i);
            lemma_le_value_bound(bytes@, i - 1, 4 - (i - 1));
            vstd::arithmetic::power2::lemma2_to64();
        }
        i = i - 1;
        u = u * 256 + (bytes[i] as u32);
    }
    if u < 0x80000000 {
        u as i32
    } else {
        ((u as i64) - 0x100000000i64) as i32
    }
}

/// Reads the `u64` at `off`.
fn read_u64_at(data: &[u8], off: usize) -> (r: u64)
    requires
        off + 8 <= data@.len() <= usize::MAX,
    ensures
        r == le_value(data@, off as int, 8),
{
    let sub = vstd::slice::slice_subrange(data, off, off + 8);
    let r = to_u64_le(sub);
    proof {
        assert(sub@.subrange(0, 8) =~= data@.subrange(off as int, off as int + 8));
        lemma_le_value_equal(sub@, 0, data@, off as int, 8);
    }
    r
}

/// Reads the signed fixed-point coordinate at `off`.
fn read_i32_at(data: &[u8], off: usize) -> (r: i32)
    requires
        off + 4 <= data@.len() <= usize::MAX,
    ensures
        r == le_i32(data@, off as int),
{
    let sub = vstd::slice::slice_subrange(data, off, off + 4);
    let r = to_i32_le(sub);
    proof {
        assert(sub@.subrange(0, 4) =~= data@.subrange(off as int, off as int + 4));
        lemma_le_value_equal(sub@, 0, data@, off as int, 4);
    }
    r
}

impl Header {
    /// Decodes the fixed prologue.  Fails with `Truncated` on fewer than
    /// 127 bytes, `InvalidMagic` when the signature is absent, and
    /// `InvalidEnum` on an unknown compression or tile-type byte.
    pub fn parse(data: &[u8]) -> (r: Result<Header, Error>)
        ensures
            r == spec_parse_header(data@),
    {
        if data.len() < HEADER_SIZE {
            return Err(Error::Truncated);
        }
        let magic_ok = data[0] == 0x50 && data[1] == 0x4d && data[2] == 0x54 && data[3] == 0x69
            && data[4] == 0x6c && data[5] == 0x65 && data[6] == 0x73;
        proof {
            if magic_ok {
                assert(data@.subrange(0, 7) =~= spec_magic());
            } else {
                assert(exists|i: int| 0 <= i < 7 && data@.subrange(0, 7)[i] != spec_magic()[i]);
            }
        }
        if !magic_ok {
            return Err(Error::InvalidMagic);
        }
        let internal_compression = match Compression::try_from(data[0x61]) {
            Ok(c) => c,
            Err(e) => {
                return Err(e);
            },
        };
        let tile_compression = match Compression::try_from(data[0x62]) {
            Ok(c) => c,
            Err(e) => {
                return Err(e);
            },
        };
        let tile_type = match TileType::try_from(data[0x63]) {
            Ok(t) => t,
            Err(e) => {
                return Err(e);
            },
        };
        proof {
            lemma_le_value_bound(data@, 0x08, 8);
            lemma_le_value_bound(data@, 0x10, 8);
            lemma_le_value_bound(data@, 0x18, 8);
            lemma_le_value_bound(data@, 0x20, 8);
            lemma_le_value_bound(data@, 0x28, 8);
            lemma_le_value_bound(data@, 0x30, 8);
            lemma_le_value_bound(data@, 0x38, 8);
            lemma_le_value_bound(data@, 0x40, 8);
            lemma_le_value_bound(data@, 0x48, 8);
            lemma_le_value_bound(data@, 0x50, 8);
            lemma_le_value_bound(data@, 0x58, 8);
            vstd::arithmetic::power2::lemma2_to64_rest();
        }
        Ok(
            Header {
                version: data[0x07],
                root_dir_offset: read_u64_at(data, 0x08),
                root_dir_length: read_u64_at(data, 0x10),
                metadata_offset: read_u64_at(data, 0x18),
                metadata_length: read_u64_at(data, 0x20),
                leaf_dirs_offset: read_u64_at(data, 0x28),
                leaf_dirs_length: read_u64_at(data, 0x30),
                tile_data_offset: read_u64_at(data, 0x38),
                tile_data_length: read_u64_at(data, 0x40),
                num_addressed_tiles: read_u64_at(data, 0x48),
                num_tile_entries: read_u64_at(data, 0x50),
                num_tile_contents: read_u64_at(data, 0x58),
                clustered: data[0x60],
                internal_compression,
                tile_compression,
                tile_type,
                min_zoom: data[0x64],
                max_zoom: data[0x65],
                min_lon_e7: read_i32_at(data, 0x66),
                min_lat_e7: read_i32_at(data, 0x6A),
                max_lon_e7: read_i32_at(data, 0x6E),
                max_lat_e7: read_i32_at(data, 0x72),
                center_zoom: data[0x76],
                center_lon_e7: read_i32_at(data, 0x77),
                center_lat_e7: read_i32_at(data, 0x7B),
            },
        )
    }
}

} // verus!
