use vstd::prelude::*;
use vstd::arithmetic::power2::pow2;
use crate::types::Error;
use crate::header::{Header, spec_parse_header};
use crate::directory::{
    Directory, DirectoryEntry, spec_parse_directory_compressed, spec_parse_directory,
    lemma_directory_sorted, sorted_by_id,
};
use crate::metadata::{Metadata, spec_parse_metadata_compressed};
use crate::tileid::{TileId, spec_tile_id};

verus! {

/// An opened archive: the raw bytes, the decoded header, the resident root
/// directory, and the metadata text.  All of it is immutable after
/// `parse`; lookups only read.
#[derive(Debug)]
pub struct PMTiles {
    pub data: Vec<u8>,
    pub header: Header,
    pub root_directory: Directory,
    pub metadata: Metadata,
}

/// The bytes of the region `[off, off + len)`, if it lies inside the
/// archive.
pub open spec fn spec_region(data: Seq<u8>, off: u64, len: u64) -> Result<Seq<u8>, Error> {
    if off + len > data.len() {
        Err(Error::OutOfBounds)
    } else {
        Ok(data.subrange(off as int, off + len))
    }
}

/// Opening an archive over its bytes: the header from the fixed prologue,
/// then the root directory and the metadata, each region bounds-checked
/// before it is sliced and inflated.
pub open spec fn spec_parse_archive(data: Seq<u8>) -> Result<
    (Header, Seq<DirectoryEntry>, Seq<char>),
    Error,
> {
    match spec_parse_header(data) {
        Err(e) => Err(e),
        Ok(h) => match spec_region(data, h.root_dir_offset, h.root_dir_length) {
            Err(e) => Err(e),
            Ok(root_bytes) => match spec_parse_directory_compressed(root_bytes) {
                Err(e) => Err(e),
                Ok(root) => match spec_region(data, h.metadata_offset, h.metadata_length) {
                    Err(e) => Err(e),
                    Ok(meta_bytes) => match spec_parse_metadata_compressed(
                        meta_bytes,
                        h.tile_type,
                    ) {
                        Err(e) => Err(e),
                        Ok(meta) => Ok((h, root, meta)),
                    },
                },
            },
        },
    }
}

/// The first entry carrying exactly the queried id, if any.
pub open spec fn spec_find_exact(entries: Seq<DirectoryEntry>, t: u64) -> Option<int>
    decreases entries.len(),
{
    if entries.len() == 0 {
        None
    } else if entries[0].tileid.value == t {
        Some(0)
    } else {
        match spec_find_exact(entries.drop_first(), t) {
            Some(i) => Some(i + 1),
            None => None,
        }
    }
}

/// The last entry whose id lies below the queried one, if any: the floor.
pub open spec fn spec_find_floor(entries: Seq<DirectoryEntry>, t: u64) -> Option<int>
    decreases entries.len(),
{
    if entries.len() == 0 {
        None
    } else if entries.last().tileid.value < t {
        Some(entries.len() - 1)
    } else {
        spec_find_floor(entries.drop_last(), t)
    }
}

/// The bytes of an entry with a positive run length: the recorded range
/// within the tile-data region, bounds-checked.
pub open spec fn spec_resolve_tile(data: Seq<u8>, h: Header, e: DirectoryEntry) -> Result<
    Option<Seq<u8>>,
    Error,
> {
    if h.tile_data_offset + e.offset + e.length > data.len() {
        Err(Error::OutOfBounds)
    } else {
        Ok(
            Some(
                data.subrange(
                    h.tile_data_offset + e.offset,
                    h.tile_data_offset + e.offset + e.length,
                ),
            ),
        )
    }
}

/// Resolving an entry with run length zero: its range addresses a leaf
/// directory within the leaf-directories region, which is inflated and
/// searched for an exact match once more — no deeper descent.  A leaf entry
/// that points at yet another leaf resolves to an absent tile.  Corrupt
/// leaf bytes surface as the same errors as a corrupt root directory.
pub open spec fn spec_resolve_leaf(data: Seq<u8>, h: Header, e: DirectoryEntry, t: u64) -> Result<
    Option<Seq<u8>>,
    Error,
> {
    if h.leaf_dirs_offset + e.offset + e.length > data.len() {
        Err(Error::OutOfBounds)
    } else {
        match spec_parse_directory_compressed(
            data.subrange(h.leaf_dirs_offset + e.offset, h.leaf_dirs_offset + e.offset + e.length),
        ) {
            Err(err) => Err(err),
            Ok(leaf) => match spec_find_exact(leaf, t) {
                None => Ok(None),
                Some(i) => if leaf[i].run_length >= 1 {
                    spec_resolve_tile(data, h, leaf[i])
                } else {
                    Ok(None)
                },
            },
        }
    }
}

/// The lookup: an exact match in the root directory is preferred, else the
/// floor entry covers the query; a positive run length yields the entry's
/// byte range, a run length of zero resolves through one leaf directory;
/// with neither kind of entry the tile is absent, which is no error.
pub open spec fn spec_get(data: Seq<u8>, h: Header, root: Seq<DirectoryEntry>, t: u64) -> Result<
    Option<Seq<u8>>,
    Error,
> {
    let found = match spec_find_exact(root, t) {
        Some(i) => Some(i),
        None => spec_find_floor(root, t),
    };
    match found {
        None => Ok(None),
        Some(i) => {
            let e = root[i];
            if e.run_length >= 1 {
                spec_resolve_tile(data, h, e)
            } else {
                spec_resolve_leaf(data, h, e, t)
            }
        },
    }
}

/// What the exact search returns: the first index carrying `t`, or the
/// assurance that no entry carries it.
pub proof fn lemma_find_exact_char(entries: Seq<DirectoryEntry>, t: u64)
    ensures
        match spec_find_exact(entries, t) {
            Some(i) => 0 <= i < entries.len() && entries[i].tileid.value == t && forall|j: int|
                0 <= j < i ==> entries[j].tileid.value != t,
            None => forall|j: int| 0 <= j < entries.len() ==> entries[j].tileid.value != t,
        },
    decreases entries.len(),
{
    if entries.len() > 0 && entries[0].tileid.value != t {
        let d = entries.drop_first();
        lemma_find_exact_char(d, t);
        assert(forall|j: int| 0 <= j < d.len() ==> d[j] == entries[j + 1]);
        match spec_find_exact(d, t) {
            Some(i) => {
                assert forall|j: int| 0 <= j < i + 1 implies entries[j].tileid.value != t by {
                    if j > 0 {
                        assert(d[j - 1].tileid.value != t);
                    }
                }
            },
            None => {
                assert forall|j: int| 0 <= j < entries.len() implies entries[j].tileid.value
                    != t by {
                    if j > 0 {
                        assert(d[j - 1].tileid.value != t);
                    }
                }
            },
        }
    }
}

/// What the floor search returns: the last index below `t`, or the
/// assurance that every entry is at or above it.
pub proof fn lemma_find_floor_char(entries: Seq<DirectoryEntry>, t: u64)
    ensures
        match spec_find_floor(entries, t) {
            Some(i) => 0 <= i < entries.len() && entries[i].tileid.value < t && forall|j: int|
                i < j < entries.len() ==> entries[j].tileid.value >= t,
            None => forall|j: int| 0 <= j < entries.len() ==> entries[j].tileid.value >= t,
        },
    decreases entries.len(),
{
    if entries.len() > 0 && !(entries.last().tileid.value < t) {
        let d = entries.drop_last();
        lemma_find_floor_char(d, t);
        assert(forall|j: int| 0 <= j < d.len() ==> d[j] == entries[j]);
    }
}

/// Lookup law, direct hit: when the root directory holds an entry with the
/// queried id (the first such) and a positive run length, and its range
/// lies inside the archive, the lookup returns exactly the byte range the
/// entry records, within the tile-data region.
pub proof fn lemma_get_exact_direct(
    data: Seq<u8>,
    h: Header,
    root: Seq<DirectoryEntry>,
    t: u64,
    i: int,
)
    requires
        0 <= i < root.len(),
        root[i].tileid.value == t,
        forall|j: int| 0 <= j < i ==> root[j].tileid.value != t,
        root[i].run_length >= 1,
        h.tile_data_offset + root[i].offset + root[i].length <= data.len(),
    ensures
        spec_get(data, h, root, t) == Ok::<Option<Seq<u8>>, Error>(
            Some(
                data.subrange(
                    h.tile_data_offset + root[i].offset,
                    h.tile_data_offset + root[i].offset + root[i].length,
                ),
            ),
        ),
{
    lemma_find_exact_char(root, t);
    match spec_find_exact(root, t) {
        Some(i2) => {
            if i2 < i {
                assert(root[i2].tileid.value != t);
            }
            if i < i2 {
                assert(root[i].tileid.value != t);
            }
        },
        None => {
            assert(root[i].tileid.value != t);
        },
    }
}

/// Lookup law, leaf indirection: when the entry that covers the query (an
/// exact match, or the floor entry with no exact match anywhere) has run
/// length zero, the lookup resolves through the leaf directory addressed
/// by that entry within the leaf-directories region, and through nothing
/// else.
pub proof fn lemma_get_leaf(data: Seq<u8>, h: Header, root: Seq<DirectoryEntry>, t: u64, i: int)
    requires
        0 <= i < root.len(),
        root[i].run_length == 0,
        (root[i].tileid.value == t && (forall|j: int|
            0 <= j < i ==> root[j].tileid.value != t)) || ((forall|j: int|
            0 <= j < root.len() ==> root[j].tileid.value != t) && root[i].tileid.value < t && (
        forall|j: int| i < j < root.len() ==> root[j].tileid.value >= t)),
    ensures
        spec_get(data, h, root, t) == spec_resolve_leaf(data, h, root[i], t),
{
    lemma_find_exact_char(root, t);
    lemma_find_floor_char(root, t);
    if root[i].tileid.value == t && (forall|j: int| 0 <= j < i ==> root[j].tileid.value != t) {
        match spec_find_exact(root, t) {
            Some(i2) => {
                if i2 < i {
                    assert(root[i2].tileid.value != t);
                }
                if i < i2 {
                    assert(root[i].tileid.value != t);
                }
            },
            None => {
                assert(root[i].tileid.value != t);
            },
        }
    } else {
        match spec_find_exact(root, t) {
            Some(i2) => {
                assert(root[i2].tileid.value != t);
            },
            None => {},
        }
        match spec_find_floor(root, t) {
            Some(i2) => {
                if i2 < i {
                    assert(root[i].tileid.value >= t);
                }
                if i < i2 {
                    assert(root[i2].tileid.value >= t);
                }
            },
            None => {
                assert(root[i].tileid.value >= t);
            },
        }
    }
}

/// Lookup law, absent tile: when every entry's id lies above the query,
/// the lookup reports the tile as absent — a `None`, not an error.
pub proof fn lemma_get_absent(data: Seq<u8>, h: Header, root: Seq<DirectoryEntry>, t: u64)
    requires
        forall|j: int| 0 <= j < root.len() ==> root[j].tileid.value > t,
    ensures
        spec_get(data, h, root, t) == Ok::<Option<Seq<u8>>, Error>(None),
{
    lemma_find_exact_char(root, t);
    lemma_find_floor_char(root, t);
    match spec_find_exact(root, t) {
        Some(i) => {
            assert(root[i].tileid.value > t);
        },
        None => {},
    }
    match spec_find_floor(root, t) {
        Some(i) => {
            assert(root[i].tileid.value > t);
        },
        None => {},
    }
}

/// First index whose id lies at or above `t`, by binary search over the
/// id-sorted entries.
fn lower_bound(entries: &Vec<DirectoryEntry>, t: u64) -> (r: usize)
    requires
        sorted_by_id(entries@),
    ensures
        r <= entries@.len(),
        forall|j: int| 0 <= j < r ==> (#[trigger] entries@[j]).tileid.value < t,
        forall|j: int| r <= j < entries@.len() ==> (#[trigger] entries@[j]).tileid.value >= t,
{
    let mut lo: usize = 0;
    let mut hi: usize = entries.len();
    while lo < hi
        invariant
            lo <= hi <= entries@.len(),
            sorted_by_id(entries@),
            forall|j: int| 0 <= j < lo ==> (#[trigger] entries@[j]).tileid.value < t,
            forall|j: int| hi <= j < entries@.len() ==> (#[trigger] entries@[j]).tileid.value >= t,
        decreases hi - lo,
    {
        let mid = lo + (hi - lo) / 2;
        if entries[mid].tileid.value() < t {
            proof {
                assert forall|j: int| 0 <= j < mid + 1 implies (
                #[trigger] entries@[j]).tileid.value < t by {
                    if lo <= j < mid {
                        assert(entries@[j].tileid.value <= entries@[mid as int].tileid.value);
                    }
                }
            }
            lo = mid + 1;
        } else {
            proof {
                assert forall|j: int| mid <= j < entries@.len() implies (
                #[trigger] entries@[j]).tileid.value >= t by {
                    if mid < j {
                        assert(entries@[mid as int].tileid.value <= entries@[j].tileid.value);
                    }
                }
            }
            hi = mid;
        }
    }
    lo
}

/// Finds the first entry carrying exactly `t`, by binary search.
fn find_exact(entries: &Vec<DirectoryEntry>, t: u64) -> (r: Option<usize>)
    requires
        sorted_by_id(entries@),
    ensures
        match (r, spec_find_exact(entries@, t)) {
            (Some(j), Some(i)) => j == i,
            (None, None) => true,
            _ => false,
        },
{
    proof {
        lemma_find_exact_char(entries@, t);
    }
    let b = lower_bound(entries, t);
    if b < entries.len() && entries[b].tileid.value() == t {
        proof {
            match spec_find_exact(entries@, t) {
                Some(i) => {
                    if i < b {
                        assert(entries@[i].tileid.value < t);
                    }
                    if b < i {
                        assert(entries@[b as int].tileid.value != t);
                    }
                },
                None => {
                    assert(entries@[b as int].tileid.value != t);
                },
            }
        }
        Some(b)
    } else {
        proof {
            match spec_find_exact(entries@, t) {
                Some(i) => {
                    if i < b {
                        assert(entries@[i].tileid.value < t);
                    } else {
                        assert(entries@[i].tileid.value >= t);
                        if b < entries@.len() {
                            assert(entries@[b as int].tileid.value >= t);
                            assert(entries@[b as int].tileid.value > t);
                            if b < i {
                                assert(entries@[b as int].tileid.value
                                    <= entries@[i].tileid.value);
                            }
                        }
                    }
                },
                None => {},
            }
        }
        None
    }
}

/// Finds the last entry whose id lies below `t`, by binary search.
fn find_floor(entries: &Vec<DirectoryEntry>, t: u64) -> (r: Option<usize>)
    requires
        sorted_by_id(entries@),
    ensures
        match (r, spec_find_floor(entries@, t)) {
            (Some(j), Some(i)) => j == i,
            (None, None) => true,
            _ => false,
        },
{
    proof {
        lemma_find_floor_char(entries@, t);
    }
    let b = lower_bound(entries, t);
    if b > 0 {
        proof {
            match spec_find_floor(entries@, t) {
                Some(i) => {
                    if i < b - 1 {
                        assert(entries@[b - 1].tileid.value >= t);
                    }
                    if b - 1 < i {
                        assert(entries@[i].tileid.value >= t);
                    }
                },
                None => {
                    assert(entries@[b - 1].tileid.value >= t);
                },
            }
        }
        Some(b - 1)
    } else {
        proof {
            match spec_find_floor(entries@, t) {
                Some(i) => {
                    assert(entries@[i].tileid.value >= t);
                },
                None => {},
            }
        }
        None
    }
}

/// Copies the bytes `[start, end)` out of the archive.
fn copy_range(data: &Vec<u8>, start: usize, end: usize) -> (r: Vec<u8>)
    requires
        start <= end <= data@.len(),
    ensures
        r@ == data@.subrange(start as int, end as int),
{
    let mut out: Vec<u8> = Vec::new();
    let mut i: usize = start;
    while i < end
        invariant
            start <= i <= end <= data@.len(),
            out@ == data@.subrange(start as int, i as int),
        decreases end - i,
    {
        proof {
            assert(data@.subrange(start as int, i as int).push(data@[i as int]) =~= data@.subrange(
                start as int,
                i as int + 1,
            ));
        }
        out.push(data[i]);
        i = i + 1;
    }
    out
}

impl PMTiles {
    /// The directory invariant that `parse` establishes: the root
    /// directory's entries are ordered by tile id, as delta decoding
    /// produces them.  Lookups search by this order.
    pub open spec fn wf(self) -> bool {
        sorted_by_id(self.root_directory@)
    }

    /// Opens an archive over its bytes: parses the header from the fixed
    /// prologue, inflates and decodes the root directory, and inflates and
    /// validates the metadata.  No partial archive is produced: the first
    /// failure is the result.
    pub fn parse(data: Vec<u8>) -> (r: Result<PMTiles, Error>)
        ensures
            match r {
                Ok(p) => spec_parse_archive(data@) == Ok::<
                    (Header, Seq<DirectoryEntry>, Seq<char>),
                    Error,
                >((p.header, p.root_directory@, p.metadata.json@)) && p.data@ == data@
                    && p.wf(),
                Err(e) => spec_parse_archive(data@) == Err::<
                    (Header, Seq<DirectoryEntry>, Seq<char>),
                    Error,
                >(e),
            },
    {
        let header = match Header::parse(data.as_slice()) {
            Ok(h) => h,
            Err(e) => {
                return Err(e);
            },
        };
        let root_bytes = match Self::region_slice(&data, header.root_dir_offset,
            header.root_dir_length) {
            Ok(s) => s,
            Err(e) => {
                return Err(e);
            },
        };
        let root_directory = match Directory::parse_compressed(root_bytes) {
            Ok(d) => d,
            Err(e) => {
                return Err(e);
            },
        };
        proof {
            let inflated = crate::gzip::gzip_inflate(root_bytes@);
            if inflated is Some {
                lemma_directory_sorted(inflated->Some_0, root_directory@);
            }
        }
        let meta_bytes = match Self::region_slice(&data, header.metadata_offset,
            header.metadata_length) {
            Ok(s) => s,
            Err(e) => {
                return Err(e);
            },
        };
        let metadata = match Metadata::parse_compressed(meta_bytes, header.tile_type) {
            Ok(m) => m,
            Err(e) => {
                return Err(e);
            },
        };
        Ok(PMTiles { data, header, root_directory, metadata })
    }

    /// The region `[off, off + len)` of the archive, bounds-checked.
    fn region_slice<'a>(data: &'a Vec<u8>, off: u64, len: u64) -> (r: Result<&'a [u8], Error>)
        ensures
            match (r, spec_region(data@, off, len)) {
                (Ok(s), Ok(t)) => s@ == t,
                (Err(e1), Err(e2)) => e1 == e2,
                _ => false,
            },
    {
        let n = data.len();
        if off > n as u64 {
            return Err(Error::OutOfBounds);
        }
        if len > n as u64 - off {
            return Err(Error::OutOfBounds);
        }
        let start = off as usize;
        let end = (off + len) as usize;
        let s = vstd::slice::slice_subrange(data.as_slice(), start, end);
        proof {
            assert(s@ =~= data@.subrange(off as int, off + len));
        }
        Ok(s)
    }

    /// Looks up the tile at `(z, x, y)`.  `Ok(None)` means the archive
    /// holds no such tile, which is not an error; errors surface corrupt
    /// leaf directories and out-of-bounds ranges.  The result is a function
    /// of the archive value and the coordinates alone, and `self` is only
    /// read: repeated calls return identical byte ranges.
    pub fn get(&self, z: u8, x: u32, y: u32) -> (r: Result<Option<Vec<u8>>, Error>)
        requires
            self.wf(),
            z <= 31,
            x < pow2(z as nat),
            y < pow2(z as nat),
        ensures
            match (r, spec_get(
                self.data@,
                self.header,
                self.root_directory@,
                spec_tile_id(z as nat, x as nat, y as nat) as u64,
            )) {
                (Ok(Some(v)), Ok(Some(s))) => v@ == s,
                (Ok(None), Ok(None)) => true,
                (Err(e1), Err(e2)) => e1 == e2,
                _ => false,
            },
    {
        let tile_id = TileId::encode(z, x, y);
        let t = tile_id.value();
        proof {
            lemma_find_exact_char(self.root_directory@, t);
            lemma_find_floor_char(self.root_directory@, t);
        }
        let found = match find_exact(&self.root_directory.entries, t) {
            Some(i) => Some(i),
            None => find_floor(&self.root_directory.entries, t),
        };
        match found {
            None => Ok(None),
            Some(i) => {
                let e = self.root_directory.entries[i];
                if e.run_length >= 1 {
                    self.resolve_tile(e)
                } else {
                    self.resolve_leaf(e, t)
                }
            },
        }
    }

    /// The byte range of an entry with a positive run length.
    fn resolve_tile(&self, e: DirectoryEntry) -> (r: Result<Option<Vec<u8>>, Error>)
        ensures
            match (r, spec_resolve_tile(self.data@, self.header, e)) {
                (Ok(Some(v)), Ok(Some(s))) => v@ == s,
                (Ok(None), Ok(None)) => true,
                (Err(e1), Err(e2)) => e1 == e2,
                _ => false,
            },
    {
        let start128: u128 = self.header.tile_data_offset as u128 + e.offset as u128;
        let end128: u128 = start128 + e.length as u128;
        if end128 > self.data.len() as u128 {
            return Err(Error::OutOfBounds);
        }
        let start = (self.header.tile_data_offset + e.offset) as usize;
        let end = start + e.length as usize;
        Ok(Some(copy_range(&self.data, start, end)))
    }

    /// Resolves an entry with run length zero through its leaf directory.
    fn resolve_leaf(&self, e: DirectoryEntry, t: u64) -> (r: Result<Option<Vec<u8>>, Error>)
        ensures
            match (r, spec_resolve_leaf(self.data@, self.header, e, t)) {
                (Ok(Some(v)), Ok(Some(s))) => v@ == s,
                (Ok(None), Ok(None)) => true,
                (Err(e1), Err(e2)) => e1 == e2,
                _ => false,
            },
    {
        let start128: u128 = self.header.leaf_dirs_offset as u128 + e.offset as u128;
        let end128: u128 = start128 + e.length as u128;
        if end128 > self.data.len() as u128 {
            return Err(Error::OutOfBounds);
        }
        let start = (self.header.leaf_dirs_offset + e.offset) as usize;
        let end = start + e.length as usize;
        let leaf_bytes = vstd::slice::slice_subrange(self.data.as_slice(), start, end);
        proof {
            assert(leaf_bytes@ =~= self.data@.subrange(
                self.header.leaf_dirs_offset + e.offset,
                self.header.leaf_dirs_offset + e.offset + e.length,
            ));
        }
        let leaf = match Directory::parse_compressed(leaf_bytes) {
            Ok(d) => d,
            Err(err) => {
                return Err(err);
            },
        };
        proof {
            let inflated = crate::gzip::gzip_inflate(leaf_bytes@);
            if inflated is Some {
                lemma_directory_sorted(inflated->Some_0, leaf@);
            }
            lemma_find_exact_char(leaf@, t);
        }
        match find_exact(&leaf.entries, t) {
            None => Ok(None),
            Some(i) => {
                let le = leaf.entries[i];
                if le.run_length >= 1 {
                    self.resolve_tile(le)
                } else {
                    Ok(None)
                }
            },
        }
    }
}

} // verus!
