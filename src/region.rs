//! The region container: a 32x32 grid of chunks stored in one file of
//! 4096-byte sectors. The first sector holds a location entry per chunk
//! (a 3-byte big-endian sector offset and a 1-byte sector count), the
//! second a 4-byte big-endian timestamp per chunk. Each stored chunk starts
//! on a sector with a 4-byte big-endian length, a compression tag and the
//! compressed record.
use crate::chunk::{height_in_chunk, lemma_chunk_round_trip, local_y, Chunk, ChunkError};
use crate::types::ChunkData;
use crate::palette::BlockView;
use crate::types::BlockType;
use std::io::{Read, Write};
use vstd::prelude::*;

verus! {

/// Bytes in one sector.
pub const SECTOR_BYTES: u64 = 4096;

/// Chunk slots in one region.
pub const REGION_CHUNKS: usize = 1024;

/// Bytes of the two header tables.
pub const HEADER_BYTES: usize = 8192;

/// Compression tag of a gzip payload.
pub const GZIP: u8 = 1;

/// Compression tag of a zlib payload, the one this codec reads and writes.
pub const ZLIB: u8 = 2;

/// Compression tag of an uncompressed payload.
pub const UNCOMPRESSED: u8 = 3;

/// What went wrong while reading or writing a region.
#[derive(Clone, Copy, Debug, PartialEq, Eq)]
pub enum RegionError {
    /// The bytes end inside the header or inside the chunk at this slot.
    Truncated(usize),
    /// The length field of the chunk at this slot does not fit its sectors.
    InconsistentSize(usize),
    /// The chunk at this slot has a compression tag the format does not
    /// define.
    UnknownCompression(usize, u8),
    /// The chunk at this slot uses a compression the format defines but
    /// this codec does not handle.
    UnsupportedCompression(usize, u8),
    /// The payload of the chunk at this slot is not a zlib stream.
    Decompression(usize),
    /// The chunk at this slot needs more than 255 sectors.
    ChunkTooLarge(usize),
}

/// Where a chunk lies in a region file, in bytes. A size of zero means no
/// chunk.
#[derive(Clone, Copy, Debug, PartialEq, Eq)]
pub struct ChunkLocation {
    pub offset: u64,
    pub size: u64,
}

/// What zlib compression at the default level makes of `data`.
pub uninterp spec fn zlib_compressed(data: Seq<u8>) -> Seq<u8>;

/// What zlib decompression makes of the stream `data`: the decoded bytes,
/// or `None` when `data` is not a zlib stream.
pub uninterp spec fn zlib_inflated(data: Seq<u8>) -> Option<Seq<u8>>;

/// Relies on flate2's `write::ZlibEncoder` at `Compression::default()`
/// over a `Vec`: it returns the zlib stream of `data`, whose bytes depend on
/// `data` alone. Writing into a `Vec` cannot fail, so neither can this.
#[verifier::external_body]
fn zlib_compress(data: &[u8]) -> (r: Vec<u8>)
    ensures
        r@ == zlib_compressed(data@),
{
    let mut encoder = flate2::write::ZlibEncoder::new(Vec::new(), flate2::Compression::default());
    encoder.write_all(data).expect("writing into a Vec cannot fail");
    encoder.finish().expect("writing into a Vec cannot fail")
}

/// Relies on flate2's `read::ZlibDecoder` over a byte slice: the outcome
/// depends on the stream alone, and since decoding inverts the encoder, a
/// stream the encoder made decodes to what was encoded.
#[verifier::external_body]
fn zlib_decompress(data: &[u8]) -> (r: Option<Vec<u8>>)
    ensures
        r matches Some(v) ==> zlib_inflated(data@) == Some(v@),
        r is None ==> zlib_inflated(data@) is None,
        r matches Some(v) ==> forall|s: Seq<u8>| zlib_compressed(s) == data@ ==> v@ == s,
        (exists|s: Seq<u8>| zlib_compressed(s) == data@) ==> r is Some,
{
    let mut out = Vec::new();
    let mut decoder = flate2::read::ZlibDecoder::new(data);
    match decoder.read_to_end(&mut out) {
        Ok(_) => Some(out),
        Err(_) => None,
    }
}

/// The big-endian number in the 3 bytes of `b` from `at`.
pub open spec fn be_u24(b: Seq<u8>, at: int) -> nat {
    (b[at] as nat) * 65536 + (b[at + 1] as nat) * 256 + (b[at + 2] as nat)
}

/// The big-endian number in the 4 bytes of `b` from `at`.
pub open spec fn be_u32(b: Seq<u8>, at: int) -> nat {
    (b[at] as nat) * 16777216 + be_u24(b, at + 1)
}

/// The location that the header in `b` gives for slot `i`.
pub open spec fn location_at(b: Seq<u8>, i: int) -> (nat, nat) {
    (be_u24(b, 4 * i) * 4096, (b[4 * i + 3] as nat) * 4096)
}

/// The compressed payload of the chunk at slot `index`, stored at `off`
/// within `size` bytes of `b`, or why it cannot be had.
pub open spec fn frame(b: Seq<u8>, index: usize, off: nat, size: nat) -> Result<Seq<u8>, RegionError> {
    if off + 4 > b.len() {
        Err(RegionError::Truncated(index))
    } else if be_u32(b, off as int) + 4 > size || be_u32(b, off as int) == 0 {
        Err(RegionError::InconsistentSize(index))
    } else if off + 4 + be_u32(b, off as int) > b.len() {
        Err(RegionError::Truncated(index))
    } else if b[off + 4int] == ZLIB {
        Ok(b.subrange(off + 5int, off + 4int + be_u32(b, off as int)))
    } else if b[off + 4int] == GZIP || b[off + 4int] == UNCOMPRESSED {
        Err(RegionError::UnsupportedCompression(index, b[off + 4int]))
    } else {
        Err(RegionError::UnknownCompression(index, b[off + 4int]))
    }
}

fn read_u24(b: &Vec<u8>, at: usize) -> (r: u32)
    requires
        at + 3 <= b@.len(),
    ensures
        r as nat == be_u24(b@, at as int),
{
    let len = b.len();
    assert(at + 3 <= len);
    (b[at] as u32) * 65536 + (b[at + 1] as u32) * 256 + (b[at + 2] as u32)
}

fn read_u32(b: &Vec<u8>, at: usize) -> (r: u32)
    requires
        at + 4 <= b@.len(),
    ensures
        r as nat == be_u32(b@, at as int),
{
    let len = b.len();
    assert(at + 4 <= len);
    let low = read_u24(b, at + 1);
    (b[at] as u32) * 16777216 + low
}

/// The location table at the start of `bytes`.
pub fn read_locations(bytes: &Vec<u8>) -> (r: Result<Vec<ChunkLocation>, RegionError>)
    ensures
        bytes@.len() < HEADER_BYTES <==> r is Err,
        r matches Err(e) ==> e == RegionError::Truncated(0),
        r matches Ok(v) ==> v@.len() == REGION_CHUNKS && forall|i: int|
            0 <= i < REGION_CHUNKS ==> (#[trigger] v@[i]).offset == location_at(bytes@, i).0
                && v@[i].size == location_at(bytes@, i).1,
{
    if bytes.len() < HEADER_BYTES {
        return Err(RegionError::Truncated(0));
    }
    let mut locations: Vec<ChunkLocation> = Vec::new();
    let mut i: usize = 0;
    while i < REGION_CHUNKS
        invariant
            i <= REGION_CHUNKS,
            bytes@.len() >= HEADER_BYTES,
            locations@.len() == i,
            forall|k: int|
                0 <= k < i ==> (#[trigger] locations@[k]).offset == location_at(bytes@, k).0
                    && locations@[k].size == location_at(bytes@, k).1,
        decreases REGION_CHUNKS - i,
    {
        let offset = read_u24(bytes, 4 * i) as u64;
        let size = bytes[4 * i + 3] as u64;
        locations.push(ChunkLocation { offset: offset * SECTOR_BYTES, size: size * SECTOR_BYTES });
        i = i + 1;
    }
    Ok(locations)
}

/// The decompressed record of the chunk at slot `index`, stored at `off`
/// within `size` bytes of `b`, or why it cannot be had.
pub open spec fn slot_payload(b: Seq<u8>, index: usize, off: nat, size: nat) -> Result<Seq<u8>, RegionError> {
    match frame(b, index, off, size) {
        Err(e) => Err(e),
        Ok(p) => match zlib_inflated(p) {
            Some(d) => Ok(d),
            None => Err(RegionError::Decompression(index)),
        },
    }
}

/// The view of a loaded record, or its error.
pub open spec fn loaded(r: Result<Vec<u8>, RegionError>) -> Result<Seq<u8>, RegionError> {
    match r {
        Ok(v) => Ok(v@),
        Err(e) => Err(e),
    }
}

/// The decompressed record of the chunk at slot `index`.
pub fn load_chunk(bytes: &Vec<u8>, index: usize, loc: &ChunkLocation) -> (r: Result<Vec<u8>, RegionError>)
    ensures
        loaded(r) == slot_payload(bytes@, index, loc.offset as nat, loc.size as nat),
        frame(bytes@, index, loc.offset as nat, loc.size as nat) matches Ok(p) ==> {
            &&& r matches Ok(v) ==> forall|s: Seq<u8>| zlib_compressed(s) == p ==> v@ == s
            &&& (exists|s: Seq<u8>| zlib_compressed(s) == p) ==> r is Ok
        },
{
    if loc.offset > bytes.len() as u64 || bytes.len() as u64 - loc.offset < 4 {
        return Err(RegionError::Truncated(index));
    }
    let off = loc.offset as usize;
    let length = read_u32(bytes, off) as u64;
    if length + 4 > loc.size || length == 0 {
        return Err(RegionError::InconsistentSize(index));
    }
    if (bytes.len() - off) as u64 - 4 < length {
        return Err(RegionError::Truncated(index));
    }
    let tag = bytes[off + 4];
    if tag == ZLIB {
        let end = off + 4 + length as usize;
        let payload = slice_of(bytes, off + 5, end);
        match zlib_decompress(payload) {
            Some(v) => Ok(v),
            None => Err(RegionError::Decompression(index)),
        }
    } else if tag == GZIP || tag == UNCOMPRESSED {
        Err(RegionError::UnsupportedCompression(index, tag))
    } else {
        Err(RegionError::UnknownCompression(index, tag))
    }
}

fn slice_of(b: &Vec<u8>, start: usize, end: usize) -> (r: &[u8])
    requires
        start <= end <= b@.len(),
    ensures
        r@ == b@.subrange(start as int, end as int),
{
    vstd::slice::slice_subrange(b.as_slice(), start, end)
}

/// `v` holds, by slot, `None` for each empty slot of `bytes` and the
/// outcome of loading each stored chunk.
pub open spec fn payloads_read(bytes: Seq<u8>, v: Seq<Option<Result<Vec<u8>, RegionError>>>) -> bool {
    &&& v.len() == REGION_CHUNKS
    &&& forall|i: int| 0 <= i < REGION_CHUNKS ==> {
        let (off, size) = location_at(bytes, i);
        &&& (size == 0 <==> #[trigger] v[i] is None)
        &&& size != 0 ==> loaded(v[i]->0) == slot_payload(bytes, i as usize, off, size)
        &&& size != 0 && frame(bytes, i as usize, off, size) is Ok ==> {
            &&& v[i]->0 matches Ok(d) ==> forall|s: Seq<u8>| zlib_compressed(s) == frame(bytes, i as usize, off, size)->Ok_0 ==> d@ == s
            &&& (exists|s: Seq<u8>| zlib_compressed(s) == frame(bytes, i as usize, off, size)->Ok_0) ==> v[i]->0 is Ok
        }
    }
}

/// Loads every stored chunk, by slot: `None` for an empty slot, else the
/// decompressed record or the fault of that chunk alone. Only a header
/// cut short fails the whole read.
pub fn read_payloads(bytes: &Vec<u8>) -> (r: Result<Vec<Option<Result<Vec<u8>, RegionError>>>, RegionError>)
    ensures
        bytes@.len() < HEADER_BYTES <==> r is Err,
        r matches Err(e) ==> e == RegionError::Truncated(0),
        r matches Ok(v) ==> payloads_read(bytes@, v@),
{
    let locations = read_locations(bytes)?;
    let mut chunks: Vec<Option<Result<Vec<u8>, RegionError>>> = Vec::new();
    let mut i: usize = 0;
    while i < REGION_CHUNKS
        invariant
            i <= REGION_CHUNKS,
            bytes@.len() >= HEADER_BYTES,
            locations@.len() == REGION_CHUNKS,
            forall|k: int|
                0 <= k < REGION_CHUNKS ==> (#[trigger] locations@[k]).offset == location_at(bytes@, k).0
                    && locations@[k].size == location_at(bytes@, k).1,
            chunks@.len() == i,
            forall|k: int| 0 <= k < i ==> {
                let (off, size) = location_at(bytes@, k);
                &&& (size == 0 <==> #[trigger] chunks@[k] is None)
                &&& size != 0 ==> loaded(chunks@[k]->0) == slot_payload(bytes@, k as usize, off, size)
                &&& size != 0 && frame(bytes@, k as usize, off, size) is Ok ==> {
                    &&& chunks@[k]->0 matches Ok(d) ==> forall|s: Seq<u8>| zlib_compressed(s) == frame(bytes@, k as usize, off, size)->Ok_0 ==> d@ == s
                    &&& (exists|s: Seq<u8>| zlib_compressed(s) == frame(bytes@, k as usize, off, size)->Ok_0) ==> chunks@[k]->0 is Ok
                }
            },
        decreases REGION_CHUNKS - i,
    {
        if locations[i].size == 0 {
            chunks.push(None);
        } else {
            chunks.push(Some(load_chunk(bytes, i, &locations[i])));
        }
        i = i + 1;
    }
    assert(payloads_read(bytes@, chunks@));
    Ok(chunks)
}

/// Sectors taken by a stored chunk whose length field is `len`: the field
/// itself and `len` more bytes, rounded up to whole sectors.
pub open spec fn sectors_for(len: nat) -> nat {
    ((len + 4 + 4095) / 4096) as nat
}

/// The first free sector once slots `0..k` are laid out, for records of
/// the given compressed sizes (`None` for an empty slot). Sectors 0 and 1
/// hold the header.
pub open spec fn next_sector(sizes: Seq<Option<nat>>, k: nat) -> nat
    decreases k,
{
    if k == 0 {
        2
    } else {
        next_sector(sizes, (k - 1) as nat) + match sizes[k - 1] {
            Some(n) => sectors_for(n + 1),
            None => 0,
        }
    }
}

/// The sector offset and sector count laid out for slot `i`; `(0, 0)` for
/// an empty slot.
pub open spec fn planned(sizes: Seq<Option<nat>>, i: nat) -> (nat, nat) {
    match sizes[i as int] {
        Some(n) => (next_sector(sizes, i), sectors_for(n + 1)),
        None => (0, 0),
    }
}

/// The compressed size of each record to store.
pub open spec fn compressed_sizes(payloads: Seq<Option<Vec<u8>>>) -> Seq<Option<nat>> {
    Seq::new(
        payloads.len(),
        |i: int|
            match payloads[i] {
                Some(p) => Some(zlib_compressed(p@).len()),
                None => None,
            },
    )
}

/// `out` is the region file that stores `payloads` (one uncompressed
/// record per slot, `None` for an empty slot) with every timestamp set to
/// `timestamp`.
pub open spec fn written(payloads: Seq<Option<Vec<u8>>>, timestamp: u32, out: Seq<u8>) -> bool {
    let sizes = compressed_sizes(payloads);
    &&& out.len() == next_sector(sizes, REGION_CHUNKS as nat) * 4096
    &&& forall|i: int|
        0 <= i < REGION_CHUNKS ==> #[trigger] location_at(out, i) == (
            planned(sizes, i as nat).0 * 4096,
            planned(sizes, i as nat).1 * 4096,
        )
    &&& forall|i: int| 0 <= i < REGION_CHUNKS ==> #[trigger] be_u32(out, 4096 + 4 * i) == timestamp
    &&& forall|i: int|
        0 <= i < REGION_CHUNKS && payloads[i] is Some ==> #[trigger] frame(
            out,
            i as usize,
            planned(sizes, i as nat).0 * 4096,
            planned(sizes, i as nat).1 * 4096,
        ) == Ok::<Seq<u8>, RegionError>(zlib_compressed(payloads[i]->0@))
}

/// Reading back a region file laid out from some records gives those
/// records again, slot by slot, with no chunk failing to load.
pub proof fn lemma_container_round_trip(
    payloads: Seq<Option<Vec<u8>>>,
    timestamp: u32,
    out: Seq<u8>,
    back: Seq<Option<Result<Vec<u8>, RegionError>>>,
)
    requires
        payloads.len() == REGION_CHUNKS,
        written(payloads, timestamp, out),
        payloads_read(out, back),
    ensures
        forall|i: int| 0 <= i < REGION_CHUNKS ==> (#[trigger] back[i] is Some) == (payloads[i] is Some),
        forall|i: int| 0 <= i < REGION_CHUNKS && payloads[i] is Some ==> (#[trigger] back[i])->0 is Ok
            && back[i]->0->Ok_0@ == payloads[i]->0@,
{
    assert forall|i: int| 0 <= i < REGION_CHUNKS implies (#[trigger] back[i] is Some) == (payloads[i] is Some) by {
        lemma_slot_size(payloads, timestamp, out, i);
    }
    assert forall|i: int| 0 <= i < REGION_CHUNKS && payloads[i] is Some implies (#[trigger] back[i])->0 is Ok
        && back[i]->0->Ok_0@ == payloads[i]->0@ by {
        lemma_slot_size(payloads, timestamp, out, i);
        let (off, size) = location_at(out, i);
        let p = payloads[i]->0@;
        assert(frame(out, i as usize, off, size)->Ok_0 == zlib_compressed(p));
        assert(exists|s: Seq<u8>| zlib_compressed(s) == frame(out, i as usize, off, size)->Ok_0);
    }
}

proof fn lemma_slot_size(payloads: Seq<Option<Vec<u8>>>, timestamp: u32, out: Seq<u8>, i: int)
    requires
        payloads.len() == REGION_CHUNKS,
        written(payloads, timestamp, out),
        0 <= i < REGION_CHUNKS,
    ensures
        (location_at(out, i).1 == 0) == (payloads[i] is None),
        payloads[i] is Some ==> frame(out, i as usize, location_at(out, i).0, location_at(out, i).1)
            == Ok::<Seq<u8>, RegionError>(zlib_compressed(payloads[i]->0@)),
{
    let sizes = compressed_sizes(payloads);
    assert(location_at(out, i) == (planned(sizes, i as nat).0 * 4096, planned(sizes, i as nat).1 * 4096));
    if payloads[i] is Some {
        let n = zlib_compressed(payloads[i]->0@).len();
        assert(sizes[i] == Some(n));
        assert(sectors_for(n + 1) >= 1);
    }
}

/// In a region file laid out by `write_region`, each stored chunk starts
/// on a sector boundary past the header, its sectors hold its length field
/// and payload with less than one sector to spare, and it ends before any
/// later stored chunk starts.
pub proof fn lemma_written_sectors(payloads: Seq<Option<Vec<u8>>>, timestamp: u32, out: Seq<u8>, i: int, j: int)
    requires
        payloads.len() == REGION_CHUNKS,
        written(payloads, timestamp, out),
        0 <= i < j < REGION_CHUNKS,
        location_at(out, i).1 != 0,
        location_at(out, j).1 != 0,
    ensures
        location_at(out, i).0 % 4096 == 0,
        location_at(out, i).0 >= HEADER_BYTES,
        location_at(out, i).1 >= be_u32(out, location_at(out, i).0 as int) + 4,
        location_at(out, i).1 < be_u32(out, location_at(out, i).0 as int) + 4 + 4096,
        location_at(out, i).0 + location_at(out, i).1 <= location_at(out, j).0,
{
    let sizes = compressed_sizes(payloads);
    lemma_slot_size(payloads, timestamp, out, i);
    lemma_slot_size(payloads, timestamp, out, j);
    let n = zlib_compressed(payloads[i]->0@).len();
    assert(sizes[i] == Some(n));
    assert(sizes[j] is Some);
    lemma_layout_disjoint(sizes, i as nat, j as nat);
    let (off, size) = location_at(out, i);
    assert(off == planned(sizes, i as nat).0 * 4096);
    assert(be_u32(out, off as int) == n + 1) by {
        let l = be_u32(out, off as int);
        assert(out.subrange(off + 5int, off + 4int + l).len() == n);
    }
    lemma_sector_rounding(n + 1);
    assert((planned(sizes, i as nat).0 * 4096) % 4096 == 0) by (nonlinear_arith);
}

/// In a region file laid out by `write_region`, slot `i` is stored exactly
/// when it had a record. A stored chunk starts on a sector boundary past
/// the header with its length field (one more than the compressed record's
/// length) and the zlib tag, followed by the compressed record; its size is
/// that length plus the field's 4 bytes, rounded up to whole sectors.
pub proof fn lemma_written_slot(payloads: Seq<Option<Vec<u8>>>, timestamp: u32, out: Seq<u8>, i: int)
    requires
        payloads.len() == REGION_CHUNKS,
        written(payloads, timestamp, out),
        0 <= i < REGION_CHUNKS,
    ensures
        (location_at(out, i).1 == 0) == (payloads[i] is None),
        payloads[i] matches Some(p) ==> {
            let (off, size) = location_at(out, i);
            &&& off % 4096 == 0
            &&& off >= HEADER_BYTES
            &&& be_u32(out, off as int) == zlib_compressed(p@).len() + 1
            &&& out[off + 4int] == ZLIB
            &&& size == crate::util::rounded_up(be_u32(out, off as int) + 4int, 4096)
            &&& frame(out, i as usize, off, size) == Ok::<Seq<u8>, RegionError>(zlib_compressed(p@))
        },
{
    let sizes = compressed_sizes(payloads);
    lemma_slot_size(payloads, timestamp, out, i);
    if payloads[i] is Some {
        let n = zlib_compressed(payloads[i]->0@).len();
        assert(sizes[i] == Some(n));
        lemma_next_sector_grows(sizes, 0, i as nat);
        let (off, size) = location_at(out, i);
        assert(off == planned(sizes, i as nat).0 * 4096);
        assert(be_u32(out, off as int) == n + 1) by {
            let l = be_u32(out, off as int);
            assert(out.subrange(off + 5int, off + 4int + l).len() == n);
        }
        assert((planned(sizes, i as nat).0 * 4096) % 4096 == 0) by (nonlinear_arith);
    }
}

proof fn lemma_next_sector_grows(sizes: Seq<Option<nat>>, k: nat, m: nat)
    requires
        k <= m,
    ensures
        next_sector(sizes, k) <= next_sector(sizes, m),
    decreases m - k,
{
    if k < m {
        lemma_next_sector_grows(sizes, k, (m - 1) as nat);
    }
}

/// A stored chunk's sectors hold its length field and payload, with less
/// than one sector to spare.
pub proof fn lemma_sector_rounding(len: nat)
    ensures
        sectors_for(len) * 4096 >= len + 4,
        sectors_for(len) * 4096 < len + 4 + 4096,
{
    let t = len + 4;
    assert(((t + 4095) / 4096) * 4096 >= t && ((t + 4095) / 4096) * 4096 < t + 4096) by (nonlinear_arith)
        requires
            t >= 0,
    ;
}

/// Two stored chunks never share a sector, and none touches the header:
/// the sectors laid out for an earlier slot end where a later one's may
/// start at the soonest.
pub proof fn lemma_layout_disjoint(sizes: Seq<Option<nat>>, i: nat, j: nat)
    requires
        i < j < sizes.len(),
        sizes[i as int] is Some,
        sizes[j as int] is Some,
    ensures
        planned(sizes, i).0 >= 2,
        planned(sizes, i).0 + planned(sizes, i).1 <= planned(sizes, j).0,
{
    lemma_next_sector_grows(sizes, 0, i);
    lemma_next_sector_grows(sizes, i + 1, j);
}

proof fn lemma_frame_extends(b: Seq<u8>, b2: Seq<u8>, index: usize, off: nat, size: nat)
    requires
        frame(b, index, off, size) is Ok,
        b.len() <= b2.len(),
        b2.subrange(0, b.len() as int) == b,
    ensures
        frame(b2, index, off, size) == frame(b, index, off, size),
{
    let l = be_u32(b, off as int);
    assert(b2[off as int] == b[off as int] && b2[off + 1int] == b[off + 1int] && b2[off + 2int] == b[off + 2int]
        && b2[off + 3int] == b[off + 3int] && b2[off + 4int] == b[off + 4int]) by {
        assert(b2.subrange(0, b.len() as int)[off as int] == b2[off as int]);
        assert(b2.subrange(0, b.len() as int)[off + 1int] == b2[off + 1int]);
        assert(b2.subrange(0, b.len() as int)[off + 2int] == b2[off + 2int]);
        assert(b2.subrange(0, b.len() as int)[off + 3int] == b2[off + 3int]);
        assert(b2.subrange(0, b.len() as int)[off + 4int] == b2[off + 4int]);
    }
    assert(b2.subrange(off + 5int, off + 4int + l) =~= b.subrange(off + 5int, off + 4int + l)) by {
        assert forall|k: int| 0 <= k < l - 1 implies #[trigger] b2.subrange(off + 5int, off + 4int + l)[k] == b.subrange(off + 5int, off + 4int + l)[k] by {
            assert(b2.subrange(0, b.len() as int)[off + 5 + k] == b2[off + 5 + k]);
        }
    }
}

proof fn lemma_prefix_bytes(a: Seq<u8>, b: Seq<u8>)
    requires
        a.len() <= b.len(),
        b.subrange(0, a.len() as int) == a,
    ensures
        forall|m: int| 0 <= m < a.len() ==> #[trigger] b[m] == a[m],
{
    assert forall|m: int| 0 <= m < a.len() implies #[trigger] b[m] == a[m] by {
        assert(b.subrange(0, a.len() as int)[m] == b[m]);
    }
}

/// The byte at `m` of a chunk frame whose first `start + 5` bytes are
/// `framed` and whose compressed record `c` follows.
spec fn old_out_at(framed: Seq<u8>, c: Seq<u8>, start: usize, m: int) -> u8 {
    if m < start + 5 {
        framed[m]
    } else {
        c[m - start - 5]
    }
}

/// Appends `v` as 3 big-endian bytes.
fn push_u24(out: &mut Vec<u8>, v: u32)
    requires
        v < 16777216,
    ensures
        final(out)@.len() == old(out)@.len() + 3,
        final(out)@.subrange(0, old(out)@.len() as int) == old(out)@,
        be_u24(final(out)@, old(out)@.len() as int) == v,
{
    let ghost start = out@.len();
    let hi = (v / 65536) as u8;
    let mid = ((v / 256) % 256) as u8;
    let lo = (v % 256) as u8;
    out.push(hi);
    out.push(mid);
    out.push(lo);
    assert(out@.subrange(0, start as int) =~= old(out)@);
    assert((hi as nat) * 65536 + (mid as nat) * 256 + (lo as nat) == v as nat) by (nonlinear_arith)
        requires
            hi == v / 65536,
            mid == (v / 256) % 256,
            lo == v % 256,
            v < 16777216,
    ;
}

/// Appends `v` as 4 big-endian bytes.
fn push_u32(out: &mut Vec<u8>, v: u32)
    ensures
        final(out)@.len() == old(out)@.len() + 4,
        final(out)@.subrange(0, old(out)@.len() as int) == old(out)@,
        be_u32(final(out)@, old(out)@.len() as int) == v,
{
    let ghost start = out@.len();
    out.push((v / 16777216) as u8);
    let ghost mid = out@;
    push_u24(out, v % 16777216);
    assert(out@.subrange(0, start as int) =~= old(out)@) by {
        assert(out@.subrange(0, start as int) =~= mid.subrange(0, start as int));
    }
    assert(out@[start as int] == mid[start as int]) by {
        assert(out@.subrange(0, start + 1int)[start as int] == out@[start as int]);
    }
    assert(((v / 16777216) as nat) * 16777216 + (v % 16777216) as nat == v as nat) by (nonlinear_arith);
}

/// Lays out a region file: the location table, `timestamp` for every slot,
/// then each record compressed with zlib, in slot order from sector 2 on,
/// each padded to whole sectors. `payloads` holds one uncompressed record
/// per slot, `None` for an empty slot. Fails exactly when a compressed
/// record needs more than 255 sectors, naming the first such slot.
pub fn write_region(payloads: &Vec<Option<Vec<u8>>>, timestamp: u32) -> (r: Result<Vec<u8>, RegionError>)
    requires
        payloads@.len() == REGION_CHUNKS,
    ensures
        r is Ok <==> forall|i: int| 0 <= i < REGION_CHUNKS && payloads@[i] is Some
            ==> sectors_for(zlib_compressed(#[trigger] payloads@[i]->0@).len() + 1) <= 255,
        r matches Ok(out) ==> written(payloads@, timestamp, out@),
        r matches Err(e) ==> e matches RegionError::ChunkTooLarge(i) && i < REGION_CHUNKS && payloads@[i as int] is Some
            && sectors_for(zlib_compressed(payloads@[i as int]->0@).len() + 1) > 255
            && forall|k: int| 0 <= k < i && payloads@[k] is Some
                ==> sectors_for(zlib_compressed(#[trigger] payloads@[k]->0@).len() + 1) <= 255,
{
    let ghost sizes = compressed_sizes(payloads@);
    let mut compressed: Vec<Option<Vec<u8>>> = Vec::new();
    let mut i: usize = 0;
    while i < REGION_CHUNKS
        invariant
            i <= REGION_CHUNKS,
            payloads@.len() == REGION_CHUNKS,
            sizes == compressed_sizes(payloads@),
            compressed@.len() == i,
            forall|k: int| 0 <= k < i ==> (#[trigger] compressed@[k] is Some) == (payloads@[k] is Some),
            forall|k: int|
                0 <= k < i && payloads@[k] is Some ==> (#[trigger] compressed@[k])->0@ == zlib_compressed(payloads@[k]->0@)
                    && compressed@[k]->0@.len() + 5 <= 255 * 4096,
        decreases REGION_CHUNKS - i,
    {
        match &payloads[i] {
            None => compressed.push(None),
            Some(p) => {
                let c = zlib_compress(p.as_slice());
                if c.len() > 255 * 4096 - 5 {
                    proof {
                        assert(sectors_for(c@.len() + 1) > 255) by (nonlinear_arith)
                            requires
                                c@.len() > 255 * 4096 - 5,
                        ;
                        assert forall|k: int| 0 <= k < i && payloads@[k] is Some implies sectors_for(
                            zlib_compressed(#[trigger] payloads@[k]->0@).len() + 1) <= 255 by {
                            let n = compressed@[k]->0@.len();
                            assert(sectors_for(n + 1) <= 255) by (nonlinear_arith)
                                requires
                                    n + 5 <= 255 * 4096,
                            ;
                        }
                    }
                    return Err(RegionError::ChunkTooLarge(i));
                }
                compressed.push(Some(c));
            },
        }
        i = i + 1;
    }
    proof {
        assert forall|k: int| 0 <= k < REGION_CHUNKS && payloads@[k] is Some implies sectors_for(
            zlib_compressed(#[trigger] payloads@[k]->0@).len() + 1,
        ) <= 255 by {
            let n = compressed@[k]->0@.len();
            assert(sectors_for(n + 1) <= 255) by (nonlinear_arith)
                requires
                    n + 5 <= 255 * 4096,
            ;
        }
    }
    let mut out: Vec<u8> = Vec::new();
    let mut sector: u64 = 2;
    let mut i: usize = 0;
    while i < REGION_CHUNKS
        invariant
            i <= REGION_CHUNKS,
            payloads@.len() == REGION_CHUNKS,
            compressed@.len() == REGION_CHUNKS,
            sizes == compressed_sizes(payloads@),
            forall|k: int| 0 <= k < REGION_CHUNKS ==> (#[trigger] compressed@[k] is Some) == (payloads@[k] is Some),
            forall|k: int|
                0 <= k < REGION_CHUNKS && payloads@[k] is Some ==> (#[trigger] compressed@[k])->0@ == zlib_compressed(payloads@[k]->0@)
                    && compressed@[k]->0@.len() + 5 <= 255 * 4096,
            sector == next_sector(sizes, i as nat),
            sector <= 2 + 255 * i,
            out@.len() == 4 * i,
            forall|k: int| 0 <= k < i ==> #[trigger] be_u24(out@, 4 * k) == planned(sizes, k as nat).0
                && out@[4 * k + 3] == planned(sizes, k as nat).1,
        decreases REGION_CHUNKS - i,
    {
        let ghost before = out@;
        match &compressed[i] {
            None => {
                push_u24(&mut out, 0);
                let ghost mid = out@;
                out.push(0);
                proof {
                    lemma_prefix_bytes(before, mid);
                    assert(sizes[i as int] is None);
                    assert(out@[4 * i as int] == mid[4 * i as int] && out@[4 * i + 1] == mid[4 * i + 1]
                        && out@[4 * i + 2] == mid[4 * i + 2]);
                }
            },
            Some(c) => {
                let n = crate::util::div_round_up(c.len() as u64 + 5, SECTOR_BYTES);
                proof {
                    assert(sizes[i as int] == Some(c@.len()));
                    assert(n <= 255) by (nonlinear_arith)
                        requires
                            n == (c@.len() + 5 + 4095) / 4096,
                            c@.len() + 5 <= 255 * 4096,
                    ;
                }
                push_u24(&mut out, sector as u32);
                let ghost mid = out@;
                out.push(n as u8);
                proof {
                    lemma_prefix_bytes(before, mid);
                    assert(out@[4 * i as int] == mid[4 * i as int] && out@[4 * i + 1] == mid[4 * i + 1]
                        && out@[4 * i + 2] == mid[4 * i + 2]);
                    assert(planned(sizes, i as nat) == (sector as nat, n as nat));
                }
                sector = sector + n;
            },
        }
        proof {
            assert(sector == next_sector(sizes, (i + 1) as nat));
            assert(forall|m: int| 0 <= m < before.len() ==> out@[m] == before[m]);
            assert forall|k: int| 0 <= k < i + 1 implies #[trigger] be_u24(out@, 4 * k) == planned(sizes, k as nat).0
                && out@[4 * k + 3] == planned(sizes, k as nat).1 by {
                if k < i {
                    assert(out@[4 * k] == before[4 * k] && out@[4 * k + 1] == before[4 * k + 1]
                        && out@[4 * k + 2] == before[4 * k + 2] && out@[4 * k + 3] == before[4 * k + 3]);
                    assert(be_u24(before, 4 * k) == planned(sizes, k as nat).0);
                } else {
                    assert(k == i);
                    assert(be_u24(out@, 4 * k) == planned(sizes, k as nat).0);
                    assert(out@[4 * k + 3] == planned(sizes, k as nat).1);
                }
            }
        }
        i = i + 1;
    }
    let ghost table = out@;
    let mut i: usize = 0;
    while i < REGION_CHUNKS
        invariant
            i <= REGION_CHUNKS,
            table.len() == 4096,
            out@.len() == 4096 + 4 * i,
            forall|m: int| 0 <= m < 4096 ==> #[trigger] out@[m] == table[m],
            forall|k: int| 0 <= k < i ==> #[trigger] be_u32(out@, 4096 + 4 * k) == timestamp,
        decreases REGION_CHUNKS - i,
    {
        let ghost before = out@;
        push_u32(&mut out, timestamp);
        proof {
            lemma_prefix_bytes(before, out@);
            assert forall|k: int| 0 <= k < i + 1 implies #[trigger] be_u32(out@, 4096 + 4 * k) == timestamp by {
                if k < i {
                    let at = 4096 + 4 * k;
                    assert(out@[at] == before[at] && out@[at + 1] == before[at + 1] && out@[at + 2] == before[at + 2]
                        && out@[at + 3] == before[at + 3]);
                    assert(be_u32(before, at) == timestamp);
                } else {
                    assert(before.len() == 4096 + 4 * k);
                }
            }
        }
        i = i + 1;
    }
    let ghost header = out@;
    let mut i: usize = 0;
    while i < REGION_CHUNKS
        invariant
            i <= REGION_CHUNKS,
            payloads@.len() == REGION_CHUNKS,
            compressed@.len() == REGION_CHUNKS,
            sizes == compressed_sizes(payloads@),
            forall|k: int| 0 <= k < REGION_CHUNKS ==> (#[trigger] compressed@[k] is Some) == (payloads@[k] is Some),
            forall|k: int|
                0 <= k < REGION_CHUNKS && payloads@[k] is Some ==> (#[trigger] compressed@[k])->0@ == zlib_compressed(payloads@[k]->0@)
                    && compressed@[k]->0@.len() + 5 <= 255 * 4096,
            header.len() == 8192,
            out@.len() == next_sector(sizes, i as nat) * 4096,
            2 <= next_sector(sizes, i as nat) <= 2 + 255 * i,
            forall|m: int| 0 <= m < 8192 ==> #[trigger] out@[m] == header[m],
            forall|k: int|
                0 <= k < i && payloads@[k] is Some ==> #[trigger] frame(
                    out@,
                    k as usize,
                    planned(sizes, k as nat).0 * 4096,
                    planned(sizes, k as nat).1 * 4096,
                ) == Ok::<Seq<u8>, RegionError>(zlib_compressed(payloads@[k]->0@)),
        decreases REGION_CHUNKS - i,
    {
        let ghost before = out@;
        match &compressed[i] {
            None => {
                proof {
                    assert(sizes[i as int] is None);
                    assert(out@.subrange(0, before.len() as int) =~= before);
                }
            },
            Some(c) => {
                let start = out.len();
                let n = crate::util::div_round_up(c.len() as u64 + 5, SECTOR_BYTES);
                proof {
                    assert(sizes[i as int] == Some(c@.len()));
                    lemma_sector_rounding(c@.len() + 1);
                }
                push_u32(&mut out, (c.len() + 1) as u32);
                let ghost p32 = out@;
                out.push(ZLIB);
                let ghost framed = out@;
                proof {
                    lemma_prefix_bytes(before, p32);
                    assert(framed.subrange(0, before.len() as int) =~= before);
                    assert(be_u32(framed, start as int) == c@.len() + 1) by {
                        assert(framed[start as int] == p32[start as int] && framed[start + 1int] == p32[start + 1int]
                            && framed[start + 2int] == p32[start + 2int] && framed[start + 3int] == p32[start + 3int]);
                    }
                }
                let mut k: usize = 0;
                while k < c.len()
                    invariant
                        k <= c@.len(),
                        framed.len() == start + 5,
                        out@.len() == start + 5 + k,
                        forall|m: int| 0 <= m < start + 5 ==> #[trigger] out@[m] == framed[m],
                        forall|m: int| 0 <= m < k ==> #[trigger] out@[start + 5 + m] == c@[m],
                    decreases c@.len() - k,
                {
                    out.push(c[k]);
                    k = k + 1;
                }
                let end = start + (n * SECTOR_BYTES) as usize;
                assert forall|m: int| 0 <= m < start + 5 + c@.len() implies #[trigger] out@[m] == old_out_at(framed, c@, start, m) by {
                    if m >= start + 5 {
                        assert(out@[start + 5 + (m - start - 5)] == c@[m - start - 5]);
                    }
                }
                while out.len() < end
                    invariant
                        out@.len() <= end,
                        out@.len() >= start + 5 + c@.len(),
                        forall|m: int| 0 <= m < start + 5 + c@.len() ==> #[trigger] out@[m] == old_out_at(framed, c@, start, m),
                    decreases end - out@.len(),
                {
                    out.push(0);
                }
                proof {
                    assert(planned(sizes, i as nat) == (next_sector(sizes, i as nat), n as nat));
                    assert(next_sector(sizes, (i + 1) as nat) == next_sector(sizes, i as nat) + n);
                    lemma_prefix_bytes(before, framed);
                    assert(out@.subrange(0, before.len() as int) =~= before);
                    let off = start as nat;
                    assert(be_u32(out@, off as int) == c@.len() + 1) by {
                        assert(out@[off as int] == framed[off as int] && out@[off + 1int] == framed[off + 1int]
                            && out@[off + 2int] == framed[off + 2int] && out@[off + 3int] == framed[off + 3int]);
                    }
                    assert(out@[off + 4int] == ZLIB);
                    assert(out@.subrange(off + 5int, off + 5int + c@.len()) =~= c@);
                    assert(frame(out@, i, planned(sizes, i as nat).0 * 4096, planned(sizes, i as nat).1 * 4096)
                        == Ok::<Seq<u8>, RegionError>(zlib_compressed(payloads@[i as int]->0@)));
                    assert forall|k2: int|
                        0 <= k2 < i && payloads@[k2] is Some implies #[trigger] frame(
                            out@,
                            k2 as usize,
                            planned(sizes, k2 as nat).0 * 4096,
                            planned(sizes, k2 as nat).1 * 4096,
                        ) == Ok::<Seq<u8>, RegionError>(zlib_compressed(payloads@[k2]->0@)) by {
                        lemma_frame_extends(before, out@, k2 as usize, planned(sizes, k2 as nat).0 * 4096,
                            planned(sizes, k2 as nat).1 * 4096);
                    }
                }
            },
        }
        proof {
            lemma_prefix_bytes(before, out@);
        }
        i = i + 1;
    }
    proof {
        assert forall|k: int| 0 <= k < REGION_CHUNKS implies #[trigger] location_at(out@, k) == (
            planned(sizes, k as nat).0 * 4096,
            planned(sizes, k as nat).1 * 4096,
        ) by {
            assert(out@[4 * k] == header[4 * k] && header[4 * k] == table[4 * k]);
            assert(out@[4 * k + 1] == header[4 * k + 1] && header[4 * k + 1] == table[4 * k + 1]);
            assert(out@[4 * k + 2] == header[4 * k + 2] && header[4 * k + 2] == table[4 * k + 2]);
            assert(out@[4 * k + 3] == header[4 * k + 3] && header[4 * k + 3] == table[4 * k + 3]);
            assert(be_u24(table, 4 * k) == planned(sizes, k as nat).0);
        }
        assert forall|k: int| 0 <= k < REGION_CHUNKS implies #[trigger] be_u32(out@, 4096 + 4 * k) == timestamp by {
            let at = 4096 + 4 * k;
            assert(out@[at] == header[at] && out@[at + 1] == header[at + 1] && out@[at + 2] == header[at + 2]
                && out@[at + 3] == header[at + 3]);
            assert(be_u32(header, at) == timestamp);
        }
    }
    Ok(out)
}

/// `a / d` rounded toward zero, as integer division does.
pub open spec fn div_toward_zero(a: int, d: int) -> int {
    if a >= 0 {
        a / d
    } else {
        -((-a) / d)
    }
}

/// The slot of the chunk that holds region-relative column (x, z).
pub open spec fn slot_of(x: int, z: int) -> int {
    (x % 32) + (z % 32) * 32
}

/// Whether `chunk` can take a block of type `block` at world height `y`.
pub open spec fn chunk_accepts(chunk: Chunk, y: int, block: BlockView) -> bool {
    &&& height_in_chunk(chunk.data.y_pos, y)
    &&& chunk.sections@[local_y(chunk.data.y_pos, y) / 16].palette.types().contains(block)
        || chunk.sections@[local_y(chunk.data.y_pos, y) / 16].palette.entries@.len() < 65536
}

/// A region: its position in region coordinates and its 1024 chunk slots.
#[derive(Clone, Debug)]
pub struct Region {
    pub x: i32,
    pub z: i32,
    pub chunks: Vec<Option<Chunk>>,
}

impl Region {
    /// 1024 slots, each empty or holding a well-formed chunk.
    pub open spec fn wf(&self) -> bool {
        &&& self.chunks@.len() == REGION_CHUNKS
        &&& forall|i: int| 0 <= i < REGION_CHUNKS && #[trigger] self.chunks@[i] is Some ==> self.chunks@[i]->0.wf()
    }

    /// Whether `set_block(x, y, z, block)` may be called: the column lies in
    /// the region, the chunk coordinates fit in 32 bits, and the height lies
    /// in the target chunk (a new chunk spans section heights -4 to 19).
    pub open spec fn can_set(&self, x: int, y: int, z: int, block: BlockView) -> bool {
        &&& 0 <= x <= 512
        &&& 0 <= z <= 512
        &&& i32::MIN <= self.x * 512 + x <= i32::MAX
        &&& i32::MIN <= self.z * 512 + z <= i32::MAX
        &&& match self.chunks@[slot_of(x, z)] {
            None => height_in_chunk(-4i32, y),
            Some(c) => chunk_accepts(c, y, block),
        }
    }

    /// Whether `set_block(x, y, z, block)` may be called.
    pub fn can_set_block(&self, x: i32, y: i32, z: i32, block: &BlockType) -> (r: bool)
        requires
            self.wf(),
        ensures
            r == self.can_set(x as int, y as int, z as int, block@),
    {
        if x < 0 || x > 512 || z < 0 || z > 512 {
            return false;
        }
        let wx = (self.x as i64) * 512 + (x as i64);
        let wz = (self.z as i64) * 512 + (z as i64);
        if wx < i32::MIN as i64 || wx > i32::MAX as i64 || wz < i32::MIN as i64 || wz > i32::MAX as i64 {
            return false;
        }
        let slot = ((x % 32) + (z % 32) * 32) as usize;
        match &self.chunks[slot] {
            None => {
                let ly = (y as i64) + 64;
                0 <= ly && ly < 384
            },
            Some(chunk) => {
                let ly = (y as i64) - (chunk.data.y_pos as i64) * 16;
                0 <= ly && ly < 384 && chunk.has_room_for(y, block)
            },
        }
    }

    /// An empty region at region coordinates (x, z).
    pub fn new(x: i32, z: i32) -> (r: Region)
        ensures
            r.wf(),
            r.x == x,
            r.z == z,
            forall|i: int| 0 <= i < REGION_CHUNKS ==> #[trigger] r.chunks@[i] is None,
    {
        let mut chunks: Vec<Option<Chunk>> = Vec::new();
        let mut i: usize = 0;
        while i < REGION_CHUNKS
            invariant
                i <= REGION_CHUNKS,
                chunks@.len() == i,
                forall|k: int| 0 <= k < i ==> #[trigger] chunks@[k] is None,
            decreases REGION_CHUNKS - i,
        {
            chunks.push(None);
            i = i + 1;
        }
        Region { x, z, chunks }
    }

    /// A region at (x, z) from one stored record per slot. Fails with the
    /// slot and the reason of the first record that is not a chunk.
    pub fn from_records(x: i32, z: i32, stored: Vec<Option<ChunkData>>) -> (r: Result<Region, (usize, ChunkError)>)
        requires
            stored@.len() == REGION_CHUNKS,
        ensures
            r matches Ok(region) ==> {
                &&& region.wf()
                &&& region.x == x
                &&& region.z == z
                &&& forall|i: int| 0 <= i < REGION_CHUNKS ==> (#[trigger] region.chunks@[i] is Some) == (stored@[i] is Some)
                &&& forall|i: int| 0 <= i < REGION_CHUNKS && stored@[i] is Some ==> Chunk::from_data_gives(
                    stored@[i]->0, Ok::<Chunk, ChunkError>(#[trigger] region.chunks@[i]->0))
            },
            r is Err ==> r->Err_0.0 < REGION_CHUNKS && stored@[r->Err_0.0 as int] is Some
                && Chunk::from_data_gives(stored@[r->Err_0.0 as int]->0, Err::<Chunk, ChunkError>(r->Err_0.1)),
    {
        let mut records = stored;
        let mut chunks: Vec<Option<Chunk>> = Vec::new();
        let mut i: usize = 0;
        let ghost given = records@;
        while i < REGION_CHUNKS
            invariant
                i <= REGION_CHUNKS,
                given.len() == REGION_CHUNKS,
                records@.len() == REGION_CHUNKS,
                forall|k: int| i <= k < REGION_CHUNKS ==> #[trigger] records@[k] == given[k],
                given == stored@,
                chunks@.len() == i,
                forall|k: int| 0 <= k < i ==> (#[trigger] chunks@[k] is Some) == (given[k] is Some),
                forall|k: int| 0 <= k < i && #[trigger] chunks@[k] is Some ==> chunks@[k]->0.wf()
                    && Chunk::from_data_gives(given[k]->0, Ok::<Chunk, ChunkError>(chunks@[k]->0)),
            decreases REGION_CHUNKS - i,
        {
            let record = records[i].take();
            match record {
                None => chunks.push(None),
                Some(data) => match Chunk::from_data(data) {
                    Ok(c) => chunks.push(Some(c)),
                    Err(e) => {
                        assert(given[i as int] is Some);
                        assert(Chunk::from_data_gives(given[i as int]->0, Err::<Chunk, ChunkError>(e)));
                        return Err((i, e));
                    },
                },
            }
            i = i + 1;
        }
        Ok(Region { x, z, chunks })
    }

    /// The stored record of each chunk, by slot.
    pub fn to_records(&self) -> (r: Vec<Option<ChunkData>>)
        requires
            self.wf(),
        ensures
            r@.len() == REGION_CHUNKS,
            forall|i: int| 0 <= i < REGION_CHUNKS ==> (#[trigger] r@[i] is Some) == (self.chunks@[i] is Some),
            forall|i: int| 0 <= i < REGION_CHUNKS && self.chunks@[i] is Some ==> Chunk::to_nbt_gives(
                self.chunks@[i]->0, #[trigger] r@[i]->0),
    {
        let mut records: Vec<Option<ChunkData>> = Vec::new();
        let mut i: usize = 0;
        while i < REGION_CHUNKS
            invariant
                i <= REGION_CHUNKS,
                self.wf(),
                records@.len() == i,
                forall|k: int| 0 <= k < i ==> (#[trigger] records@[k] is Some) == (self.chunks@[k] is Some),
                forall|k: int| 0 <= k < i && self.chunks@[k] is Some ==> Chunk::to_nbt_gives(
                    self.chunks@[k]->0, #[trigger] records@[k]->0),
            decreases REGION_CHUNKS - i,
        {
            match &self.chunks[i] {
                None => records.push(None),
                Some(c) => records.push(Some(c.to_nbt())),
            }
            i = i + 1;
        }
        records
    }

    /// Sets the block at region-relative (x, z) and world height y. The
    /// target slot is `(x % 32) + (z % 32) * 32`; an empty slot first gets a
    /// new chunk at chunk coordinates `((self.x * 512 + x) / 32, (self.z *
    /// 512 + z) / 32)`. Inside the chunk the block goes to column
    /// `(x % 16, z % 15)`.
    pub fn set_block(&mut self, x: i32, y: i32, z: i32, block: &BlockType)
        requires
            old(self).wf(),
            old(self).can_set(x as int, y as int, z as int, block@),
        ensures
            final(self).wf(),
            final(self).x == old(self).x,
            final(self).z == old(self).z,
            final(self).chunks@[slot_of(x as int, z as int)] is Some,
            final(self).chunks@[slot_of(x as int, z as int)]->0.data.y_pos == match old(self).chunks@[slot_of(x as int, z as int)] {
                Some(c) => c.data.y_pos,
                None => -4i32,
            },
            height_in_chunk(final(self).chunks@[slot_of(x as int, z as int)]->0.data.y_pos, y as int),
            old(self).chunks@[slot_of(x as int, z as int)] is None ==> {
                &&& final(self).chunks@[slot_of(x as int, z as int)]->0.data.x_pos == div_toward_zero(old(self).x * 512 + x, 32)
                &&& final(self).chunks@[slot_of(x as int, z as int)]->0.data.z_pos == div_toward_zero(old(self).z * 512 + z, 32)
            },
            old(self).chunks@[slot_of(x as int, z as int)] matches Some(c) ==> {
                let after = final(self).chunks@[slot_of(x as int, z as int)]->0;
                &&& after.data == c.data
                &&& forall|k: int| 0 <= k < 24 && k != local_y(c.data.y_pos, y as int) / 16
                    ==> #[trigger] after.sections@[k] == c.sections@[k]
            },
            final(self).chunks@[slot_of(x as int, z as int)]->0.block(x as int % 16, y as int, z as int % 15) == block@,
            forall|i: int| 0 <= i < REGION_CHUNKS && i != slot_of(x as int, z as int) ==> #[trigger] final(self).chunks@[i]
                == old(self).chunks@[i],
    {
        let slot = ((x % 32) + (z % 32) * 32) as usize;
        if self.chunks[slot].is_none() {
            let chunk_x = (((self.x as i64) * 512 + (x as i64)) / 32) as i32;
            let chunk_z = (((self.z as i64) * 512 + (z as i64)) / 32) as i32;
            self.chunks.set(slot, Some(Chunk::new(chunk_x, chunk_z)));
        }
        let ghost before = self.chunks@;
        proof {
            assert(self.chunks@[slot as int] is Some);
            assert(chunk_accepts(self.chunks@[slot as int]->0, y as int, block@)) by {
                if old(self).chunks@[slot as int] is None {
                    let c = self.chunks@[slot as int]->0;
                    assert(c.data.y_pos == -4);
                    let si = local_y(c.data.y_pos, y as int) / 16;
                    assert(c.sections@[si].palette.entries@.len() == 1);
                }
            }
        }
        match &mut self.chunks[slot] {
            Some(chunk) => chunk.set_block(x % 16, y, z % 15, block),
            None => {},
        }
        proof {
            assert forall|i: int| 0 <= i < REGION_CHUNKS && #[trigger] self.chunks@[i] is Some implies self.chunks@[i]->0.wf() by {
                if i != slot {
                    assert(self.chunks@[i] == before[i]);
                }
            }
        }
    }

    /// The block type at region-relative (x, z) and world height y, read
    /// from the same chunk and column that `set_block` writes; `None` when
    /// that slot is empty or the height lies outside its chunk.
    pub fn get_block(&self, x: i32, y: i32, z: i32) -> (r: Option<BlockType>)
        requires
            self.wf(),
            0 <= x <= 512,
            0 <= z <= 512,
        ensures
            r is Some <==> (self.chunks@[slot_of(x as int, z as int)] is Some
                && height_in_chunk(self.chunks@[slot_of(x as int, z as int)]->0.data.y_pos, y as int)),
            r matches Some(b) ==> b@ == self.chunks@[slot_of(x as int, z as int)]->0.block(x as int % 16, y as int, z as int % 15),
    {
        let slot = ((x % 32) + (z % 32) * 32) as usize;
        match &self.chunks[slot] {
            None => None,
            Some(chunk) => {
                let ly = (y as i64) - (chunk.data.y_pos as i64) * 16;
                if ly < 0 || ly >= 384 {
                    None
                } else {
                    Some(chunk.get_block(x % 16, y, z % 15))
                }
            },
        }
    }
}

/// Turning a region into records and the records back into a region (as
/// `to_records` and `from_records` do) keeps every slot's occupancy and
/// every block that `get_block` can see.
pub proof fn lemma_region_round_trip(
    region: Region,
    records: Seq<Option<ChunkData>>,
    back: Seq<Option<Chunk>>,
)
    requires
        region.wf(),
        records.len() == REGION_CHUNKS,
        forall|i: int| 0 <= i < REGION_CHUNKS ==> (#[trigger] records[i] is Some) == (region.chunks@[i] is Some),
        forall|i: int| 0 <= i < REGION_CHUNKS && region.chunks@[i] is Some ==> Chunk::to_nbt_gives(
            region.chunks@[i]->0, #[trigger] records[i]->0),
        back.len() == REGION_CHUNKS,
        forall|i: int| 0 <= i < REGION_CHUNKS ==> (#[trigger] back[i] is Some) == (records[i] is Some),
        forall|i: int| 0 <= i < REGION_CHUNKS && records[i] is Some ==> Chunk::from_data_gives(
            records[i]->0, Ok::<Chunk, ChunkError>(#[trigger] back[i]->0)),
    ensures
        forall|i: int| 0 <= i < REGION_CHUNKS ==> (#[trigger] back[i] is Some) == (region.chunks@[i] is Some),
        forall|i: int, x: int, y: int, z: int|
            0 <= i < REGION_CHUNKS && #[trigger] region.chunks@[i] is Some && height_in_chunk(region.chunks@[i]->0.data.y_pos, y)
                ==> back[i]->0.data.y_pos == region.chunks@[i]->0.data.y_pos
                && #[trigger] back[i]->0.block(x, y, z) == region.chunks@[i]->0.block(x, y, z),
{
    assert forall|i: int, x: int, y: int, z: int|
        0 <= i < REGION_CHUNKS && #[trigger] region.chunks@[i] is Some && height_in_chunk(region.chunks@[i]->0.data.y_pos, y)
            implies back[i]->0.data.y_pos == region.chunks@[i]->0.data.y_pos
            && #[trigger] back[i]->0.block(x, y, z) == region.chunks@[i]->0.block(x, y, z) by {
        lemma_chunk_round_trip(region.chunks@[i]->0, records[i]->0, Ok::<Chunk, ChunkError>(back[i]->0));
    }
}

} // verus!
