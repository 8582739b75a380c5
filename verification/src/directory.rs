use vstd::prelude::*;
use crate::types::Error;
use crate::tileid::TileId;
use crate::varint::{decode_varint, spec_decode_varint, lemma_decode_varint_bounds};
use crate::gzip::{gunzip, gzip_inflate};

verus! {

/// One directory entry: a tile id (its stored delta and the delta-decoded
/// absolute value), a run length, and a byte range within the tile-data or
/// leaf-directory region.  A run length of zero means the entry addresses a
/// leaf directory rather than tile data.
#[derive(Clone, Copy, Debug, PartialEq, Eq, Structural)]
pub struct DirectoryEntry {
    pub delta_encoded_tileid: u64,
    pub tileid: TileId,
    pub run_length: u64,
    pub length: u64,
    pub offset: u64,
}

/// A decoded directory: its entries in decoding order.
#[derive(Debug)]
pub struct Directory {
    pub entries: Vec<DirectoryEntry>,
}

impl View for Directory {
    type V = Seq<DirectoryEntry>;

    open spec fn view(&self) -> Seq<DirectoryEntry> {
        self.entries@
    }
}

/// Reading `count` varints from the front of `s`: the values and the bytes
/// consumed, or the first decoding error.
pub open spec fn spec_read_varints(s: Seq<u8>, count: nat) -> Result<(Seq<u64>, int), Error>
    decreases count,
{
    if count == 0 {
        Ok((Seq::empty(), 0))
    } else {
        match spec_decode_varint(s) {
            Err(e) => Err(e),
            Ok((v, n)) => match spec_read_varints(s.skip(n), (count - 1) as nat) {
                Err(e) => Err(e),
                Ok((vs, m)) => Ok((seq![v] + vs, n + m)),
            },
        }
    }
}

/// A successful varint run holds one value per count and stays within `s`.
pub proof fn lemma_read_varints_shape(s: Seq<u8>, count: nat, vs: Seq<u64>, m: int)
    requires
        spec_read_varints(s, count) == Ok::<(Seq<u64>, int), Error>((vs, m)),
    ensures
        vs.len() == count,
        0 <= m <= s.len(),
    decreases count,
{
    if count > 0 {
        let first = spec_decode_varint(s);
        if first is Ok {
            let (v, n) = first->Ok_0;
            lemma_decode_varint_bounds(s, v, n);
            let rest = spec_read_varints(s.skip(n), (count - 1) as nat);
            if rest is Ok {
                let (vs2, m2) = rest->Ok_0;
                lemma_read_varints_shape(s.skip(n), (count - 1) as nat, vs2, m2);
            }
        }
    }
}

/// Reads `count` varints in a row from the front of `buffer`.
pub fn read_varints(buffer: &[u8], count: u64) -> (r: Result<(Vec<u64>, usize), Error>)
    ensures
        match r {
            Ok((vals, size)) => spec_read_varints(buffer@, count as nat) == Ok::<
                (Seq<u64>, int),
                Error,
            >((vals@, size as int)),
            Err(e) => spec_read_varints(buffer@, count as nat) == Err::<(Seq<u64>, int), Error>(e),
        },
{
    let mut values: Vec<u64> = Vec::new();
    let mut size_read: usize = 0;
    let mut k: u64 = 0;
    proof {
        assert(buffer@.skip(0) =~= buffer@);
        let rest = spec_read_varints(buffer@, count as nat);
        if rest is Ok {
            assert(Seq::<u64>::empty() + rest->Ok_0.0 =~= rest->Ok_0.0);
        }
    }
    while k < count
        invariant
            k <= count,
            size_read <= buffer@.len(),
            values@.len() == k,
            ({
                let rest = spec_read_varints(buffer@.skip(size_read as int), (count - k) as nat);
                match rest {
                    Ok((vs, m)) => spec_read_varints(buffer@, count as nat) == Ok::<
                        (Seq<u64>, int),
                        Error,
                    >((values@ + vs, size_read + m)),
                    Err(e) => spec_read_varints(buffer@, count as nat) == Err::<
                        (Seq<u64>, int),
                        Error,
                    >(e),
                }
            }),
        decreases count - k,
    {
        let sub = vstd::slice::slice_subrange(buffer, size_read, buffer.len());
        proof {
            assert(sub@ =~= buffer@.skip(size_read as int));
        }
        match decode_varint(sub) {
            Err(e) => {
                return Err(e);
            },
            Ok((v, n)) => {
                proof {
                    lemma_decode_varint_bounds(sub@, v, n as int);
                    assert(buffer@.skip(size_read as int).skip(n as int) =~= buffer@.skip(
                        size_read as int + n as int,
                    ));
                    let rest2 = spec_read_varints(
                        buffer@.skip(size_read as int + n as int),
                        (count - (k + 1)) as nat,
                    );
                    if rest2 is Ok {
                        let (vs2, m2) = rest2->Ok_0;
                        assert(values@ + (seq![v] + vs2) =~= (values@ + seq![v]) + vs2);
                    }
                    assert(values@.push(v) =~= values@ + seq![v]);
                }
                values.push(v);
                size_read = size_read + n;
                k = k + 1;
            },
        }
    }
    proof {
        assert(values@ + Seq::<u64>::empty() =~= values@);
    }
    Ok((values, size_read))
}

/// A 64-bit sum, under the caller's proof that it does not wrap.
pub open spec fn add_u64(a: u64, b: u64) -> u64 {
    (a + b) as u64
}

/// The absolute byte offset of entry `i`, from its raw column value: zero
/// past the first entry means contiguous with the previous one; any other
/// value carries a bias of one.  A sum that leaves 64 bits makes the
/// directory malformed.
pub open spec fn spec_entry_offset(raw: u64, i: int, last_off: u64, last_len: u64) -> Result<
    u64,
    Error,
> {
    if raw == 0 && i > 0 {
        if last_off + last_len > u64::MAX {
            Err(Error::Malformed)
        } else {
            Ok(add_u64(last_off, last_len))
        }
    } else if raw == 0 {
        Ok(0u64)
    } else {
        Ok((raw - 1) as u64)
    }
}

/// Reconstructing the entries from the four decoded columns, from index `i`
/// on: tile ids are running sums of the deltas; offsets resolve as
/// `spec_entry_offset` says.  A tile-id sum that leaves 64 bits makes the
/// directory malformed.
pub open spec fn spec_build_entries(
    deltas: Seq<u64>,
    runs: Seq<u64>,
    lens: Seq<u64>,
    offs: Seq<u64>,
    i: int,
    last_id: u64,
    last_off: u64,
    last_len: u64,
) -> Result<Seq<DirectoryEntry>, Error>
    decreases deltas.len() - i,
{
    if i < 0 || i >= deltas.len() {
        Ok(Seq::empty())
    } else if last_id + deltas[i] > u64::MAX {
        Err(Error::Malformed)
    } else {
        match spec_entry_offset(offs[i], i, last_off, last_len) {
            Err(e) => Err(e),
            Ok(off) => {
                let entry = DirectoryEntry {
                    delta_encoded_tileid: deltas[i],
                    tileid: TileId { value: add_u64(last_id, deltas[i]) },
                    run_length: runs[i],
                    length: lens[i],
                    offset: off,
                };
                match spec_build_entries(
                    deltas,
                    runs,
                    lens,
                    offs,
                    i + 1,
                    add_u64(last_id, deltas[i]),
                    off,
                    lens[i],
                ) {
                    Err(e) => Err(e),
                    Ok(rest) => Ok(seq![entry] + rest),
                }
            },
        }
    }
}

/// Entries ordered by tile id, as decoding produces them.
pub open spec fn sorted_by_id(entries: Seq<DirectoryEntry>) -> bool {
    forall|a: int, b: int|
        0 <= a < b < entries.len() ==> (#[trigger] entries[a]).tileid.value <= (
        #[trigger] entries[b]).tileid.value
}

/// Shape of a successful fold from index `i` on: one entry per remaining
/// column row, each carrying its stored delta, none below the id of the
/// first, ids never decreasing, and strictly increasing wherever the
/// stored delta is nonzero.
pub proof fn lemma_build_entries_sorted(
    deltas: Seq<u64>,
    runs: Seq<u64>,
    lens: Seq<u64>,
    offs: Seq<u64>,
    i: int,
    last_id: u64,
    last_off: u64,
    last_len: u64,
)
    requires
        0 <= i,
    ensures
        match spec_build_entries(deltas, runs, lens, offs, i, last_id, last_off, last_len) {
            Ok(out) => {
                &&& out.len() == if i <= deltas.len() {
                    deltas.len() - i
                } else {
                    0
                }
                &&& forall|a: int|
                    0 <= a < out.len() ==> (#[trigger] out[a]).delta_encoded_tileid == deltas[i + a]
                &&& forall|a: int|
                    0 <= a < out.len() ==> (#[trigger] out[a]).tileid.value >= last_id + deltas[i]
                &&& forall|a: int, b: int|
                    0 <= a < b < out.len() ==> (#[trigger] out[a]).tileid.value
                        <= (#[trigger] out[b]).tileid.value
                &&& (forall|k: int| i < k < deltas.len() ==> deltas[k] >= 1) ==> (forall|
                    a: int,
                    b: int,
                |
                    0 <= a < b < out.len() ==> (#[trigger] out[a]).tileid.value < (
                    #[trigger] out[b]).tileid.value)
            },
            Err(_) => true,
        },
    decreases deltas.len() - i,
{
    let r = spec_build_entries(deltas, runs, lens, offs, i, last_id, last_off, last_len);
    if i >= deltas.len() {
    } else if last_id + deltas[i] > u64::MAX {
    } else {
        match spec_entry_offset(offs[i], i, last_off, last_len) {
            Err(_) => {},
            Ok(off) => {
                let id = add_u64(last_id, deltas[i]);
                lemma_build_entries_sorted(deltas, runs, lens, offs, i + 1, id, off, lens[i]);
                let rest = spec_build_entries(deltas, runs, lens, offs, i + 1, id, off, lens[i]);
                if rest is Ok {
                    let tail = rest->Ok_0;
                    let out = r->Ok_0;
                    assert(out == seq![out[0]] + tail);
                    assert(forall|a: int| 0 <= a < tail.len() ==> out[a + 1] == tail[a]);
                    assert(out[0].tileid.value == id);
                    assert forall|a: int| 0 <= a < out.len() implies (
                    #[trigger] out[a]).tileid.value >= last_id + deltas[i] by {
                        if a > 0 {
                            assert(tail[a - 1].tileid.value >= id + deltas[i + 1]);
                        }
                    }
                    assert forall|a: int| 0 <= a < out.len() implies (
                    #[trigger] out[a]).delta_encoded_tileid == deltas[i + a] by {
                        if a > 0 {
                            assert(tail[a - 1].delta_encoded_tileid == deltas[i + 1 + (a - 1)]);
                        }
                    }
                    assert forall|a: int, b: int| 0 <= a < b < out.len() implies (
                    #[trigger] out[a]).tileid.value <= (#[trigger] out[b]).tileid.value by {
                        if a > 0 {
                            assert(tail[a - 1].tileid.value <= tail[b - 1].tileid.value);
                        } else {
                            assert(tail[b - 1].tileid.value >= id + deltas[i + 1]);
                        }
                    }
                    if forall|k: int| i < k < deltas.len() ==> deltas[k] >= 1 {
                        assert forall|a: int, b: int| 0 <= a < b < out.len() implies (
                        #[trigger] out[a]).tileid.value < (#[trigger] out[b]).tileid.value by {
                            if a > 0 {
                                assert(tail[a - 1].tileid.value < tail[b - 1].tileid.value);
                            } else {
                                assert(deltas[i + 1] >= 1);
                                assert(tail[b - 1].tileid.value >= id + deltas[i + 1]);
                            }
                        }
                    }
                }
            },
        }
    }
}

/// Directory order law: a decoded directory's entries carry non-negative,
/// cumulative tile-id deltas, so their absolute ids never decrease; they
/// strictly increase wherever the stored delta past the first entry is
/// nonzero.
pub proof fn lemma_directory_sorted(s: Seq<u8>, out: Seq<DirectoryEntry>)
    requires
        spec_parse_directory(s) == Ok::<Seq<DirectoryEntry>, Error>(out),
    ensures
        sorted_by_id(out),
        forall|a: int, b: int|
            0 <= a < b < out.len() ==> (#[trigger] out[a]).tileid.value <= (
            #[trigger] out[b]).tileid.value,
        (forall|k: int| 1 <= k < out.len() ==> (#[trigger] out[k]).delta_encoded_tileid >= 1)
            ==> (forall|a: int, b: int|
            0 <= a < b < out.len() ==> (#[trigger] out[a]).tileid.value < (
            #[trigger] out[b]).tileid.value),
{
    let first = spec_decode_varint(s);
    if first is Ok {
        let (count, c0) = first->Ok_0;
        let r1 = spec_read_varints(s.skip(c0), count as nat);
        if r1 is Ok {
            let (deltas, n1) = r1->Ok_0;
            let r2 = spec_read_varints(s.skip(c0 + n1), count as nat);
            if r2 is Ok {
                let (runs, n2) = r2->Ok_0;
                let r3 = spec_read_varints(s.skip(c0 + n1 + n2), count as nat);
                if r3 is Ok {
                    let (lens, n3) = r3->Ok_0;
                    let r4 = spec_read_varints(s.skip(c0 + n1 + n2 + n3), count as nat);
                    if r4 is Ok {
                        let (offs, _) = r4->Ok_0;
                        lemma_build_entries_sorted(deltas, runs, lens, offs, 0, 0, 0, 0);
                        if forall|k: int|
                            1 <= k < out.len() ==> (#[trigger] out[k]).delta_encoded_tileid >= 1 {
                            assert forall|k: int| 0 < k < deltas.len() implies deltas[k] >= 1 by {
                                assert(out[k].delta_encoded_tileid == deltas[k]);
                            }
                        }
                    }
                }
            }
        }
    }
}

/// Parsing an uncompressed directory blob: one varint with the entry count
/// `N`, then four back-to-back varint columns of length `N` (delta-encoded
/// tile ids, run lengths, byte lengths, raw offsets), then the fold that
/// resolves them.  Every decoding failure is `Malformed`.
pub open spec fn spec_parse_directory(s: Seq<u8>) -> Result<Seq<DirectoryEntry>, Error> {
    match spec_decode_varint(s) {
        Err(_) => Err(Error::Malformed),
        Ok((count, c0)) => match spec_read_varints(s.skip(c0), count as nat) {
            Err(_) => Err(Error::Malformed),
            Ok((deltas, n1)) => match spec_read_varints(s.skip(c0 + n1), count as nat) {
                Err(_) => Err(Error::Malformed),
                Ok((runs, n2)) => match spec_read_varints(s.skip(c0 + n1 + n2), count as nat) {
                    Err(_) => Err(Error::Malformed),
                    Ok((lens, n3)) => match spec_read_varints(
                        s.skip(c0 + n1 + n2 + n3),
                        count as nat,
                    ) {
                        Err(_) => Err(Error::Malformed),
                        Ok((offs, _)) => spec_build_entries(deltas, runs, lens, offs, 0, 0, 0, 0),
                    },
                },
            },
        },
    }
}

/// Parsing a gzip-compressed directory blob: inflate, then parse.
pub open spec fn spec_parse_directory_compressed(s: Seq<u8>) -> Result<Seq<DirectoryEntry>, Error> {
    match gzip_inflate(s) {
        None => Err(Error::DecompressionFailed),
        Some(u) => spec_parse_directory(u),
    }
}

impl Directory {
    /// Decodes an uncompressed directory blob into its entries.
    pub fn parse(data: &[u8]) -> (r: Result<Directory, Error>)
        ensures
            match r {
                Ok(d) => spec_parse_directory(data@) == Ok::<Seq<DirectoryEntry>, Error>(d@),
                Err(e) => spec_parse_directory(data@) == Err::<Seq<DirectoryEntry>, Error>(e),
            },
    {
        let (count, c0) = match decode_varint(data) {
            Ok(p) => p,
            Err(_) => {
                return Err(Error::Malformed);
            },
        };
        proof {
            lemma_decode_varint_bounds(data@, count, c0 as int);
        }
        let sub1 = vstd::slice::slice_subrange(data, c0, data.len());
        proof {
            assert(sub1@ =~= data@.skip(c0 as int));
        }
        let (deltas, n1) = match read_varints(sub1, count) {
            Ok(p) => p,
            Err(_) => {
                return Err(Error::Malformed);
            },
        };
        proof {
            lemma_read_varints_shape(sub1@, count as nat, deltas@, n1 as int);
        }
        let sub2 = vstd::slice::slice_subrange(data, c0 + n1, data.len());
        proof {
            assert(sub2@ =~= data@.skip(c0 as int + n1 as int));
        }
        let (runs, n2) = match read_varints(sub2, count) {
            Ok(p) => p,
            Err(_) => {
                return Err(Error::Malformed);
            },
        };
        proof {
            lemma_read_varints_shape(sub2@, count as nat, runs@, n2 as int);
        }
        let sub3 = vstd::slice::slice_subrange(data, c0 + n1 + n2, data.len());
        proof {
            assert(sub3@ =~= data@.skip(c0 as int + n1 as int + n2 as int));
        }
        let (lens, n3) = match read_varints(sub3, count) {
            Ok(p) => p,
            Err(_) => {
                return Err(Error::Malformed);
            },
        };
        proof {
            lemma_read_varints_shape(sub3@, count as nat, lens@, n3 as int);
        }
        let sub4 = vstd::slice::slice_subrange(data, c0 + n1 + n2 + n3, data.len());
        proof {
            assert(sub4@ =~= data@.skip(c0 as int + n1 as int + n2 as int + n3 as int));
        }
        let (offs, _n4) = match read_varints(sub4, count) {
            Ok(p) => p,
            Err(_) => {
                return Err(Error::Malformed);
            },
        };
        proof {
            lemma_read_varints_shape(sub4@, count as nat, offs@, _n4 as int);
        }
        let mut entries: Vec<DirectoryEntry> = Vec::new();
        let mut last_id: u64 = 0;
        let mut last_off: u64 = 0;
        let mut last_len: u64 = 0;
        let mut i: usize = 0;
        let ghost goal = spec_build_entries(deltas@, runs@, lens@, offs@, 0, 0, 0, 0);
        proof {
            assert(spec_parse_directory(data@) == goal);
        }
        while i < deltas.len()
            invariant
                i <= deltas@.len(),
                entries@.len() == i,
                deltas@.len() == runs@.len() == lens@.len() == offs@.len(),
                goal == spec_parse_directory(data@),
                ({
                    let rest = spec_build_entries(
                        deltas@,
                        runs@,
                        lens@,
                        offs@,
                        i as int,
                        last_id,
                        last_off,
                        last_len,
                    );
                    match rest {
                        Ok(tail) => goal == Ok::<Seq<DirectoryEntry>, Error>(entries@ + tail),
                        Err(e) => goal == Err::<Seq<DirectoryEntry>, Error>(e),
                    }
                }),
            decreases deltas@.len() - i,
        {
            let delta = deltas[i];
            if delta > u64::MAX - last_id {
                return Err(Error::Malformed);
            }
            let id = last_id + delta;
            let raw = offs[i];
            let off: u64;
            if raw == 0 && i > 0 {
                if last_len > u64::MAX - last_off {
                    return Err(Error::Malformed);
                }
                off = last_off + last_len;
            } else if raw == 0 {
                off = 0;
            } else {
                off = raw - 1;
            }
            let entry = DirectoryEntry {
                delta_encoded_tileid: delta,
                tileid: TileId::new(id),
                run_length: runs[i],
                length: lens[i],
                offset: off,
            };
            proof {
                let rest2 = spec_build_entries(
                    deltas@,
                    runs@,
                    lens@,
                    offs@,
                    i + 1,
                    id,
                    off,
                    lens@[i as int],
                );
                if rest2 is Ok {
                    assert(entries@ + (seq![entry] + rest2->Ok_0) =~= (entries@ + seq![entry])
                        + rest2->Ok_0);
                }
                assert(entries@.push(entry) =~= entries@ + seq![entry]);
            }
            entries.push(entry);
            last_id = id;
            last_off = off;
            last_len = lens[i];
            i = i + 1;
        }
        proof {
            assert(entries@ + Seq::<DirectoryEntry>::empty() =~= entries@);
        }
        Ok(Directory { entries })
    }

    /// Inflates a gzip-compressed directory blob, then decodes it.
    pub fn parse_compressed(data: &[u8]) -> (r: Result<Directory, Error>)
        ensures
            match r {
                Ok(d) => spec_parse_directory_compressed(data@) == Ok::<
                    Seq<DirectoryEntry>,
                    Error,
                >(d@),
                Err(e) => spec_parse_directory_compressed(data@) == Err::<
                    Seq<DirectoryEntry>,
                    Error,
                >(e),
            },
    {
        let uncompressed = match gunzip(data) {
            Ok(u) => u,
            Err(e) => {
                return Err(e);
            },
        };
        Self::parse(uncompressed.as_slice())
    }
}

} // verus!
