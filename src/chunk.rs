//! The chunked container of archive files, and the table of files that
//! one of its chunks holds.
//!
//! A container is a sequence of records: a little-endian `u32` type, a
//! `u32` size, then that many bytes of payload. The top bit of the type
//! marks an LZH-compressed payload; the other 31 bits are the chunk's id.
use vstd::prelude::*;
use vstd::slice::{slice_subrange, slice_to_vec};

use crate::bytes::{lemma_u32_le_roundtrip, read_u16_le, read_u32_le, spec_u16_le, spec_u32_le, spec_u32_to_le};
use crate::lzhuf::{decompress, lzh_decode};

verus! {

/// The bit of a chunk's type that marks a compressed payload.
pub const ARCHIVE_COMPRESS_FLAG: u32 = 0x8000_0000;

/// Id of the chunk that holds an archive's INI header.
pub const ARCHIVE_HEADER_CHUNK_ID: u32 = 666;

/// Id of the chunk that holds an archive's table of files.
pub const ARCHIVE_FILES_CHUNK_ID: u32 = 1;

/// Why a chunk could not be read.
#[derive(Debug, PartialEq, Eq, Structural)]
pub enum ChunkError {
    /// The container ends, at a record boundary, before a record of the
    /// id sought.
    Missing,
    /// The container ends inside a record.
    Truncated,
    /// The chunk is compressed but too short to hold its length prefix.
    Compression,
}

/// The id that a record's type stands for.
pub open spec fn chunk_id(ty: u32) -> u32 {
    ty & !ARCHIVE_COMPRESS_FLAG
}

/// Where a scan for a chunk ends.
pub enum Located {
    /// A record whose id matches, with its type, the index of its payload
    /// and the payload's declared size.
    Found { ty: u32, start: nat, size: nat },
    /// The container ends at a record boundary without such a record.
    Absent,
    /// The container ends inside a record header, or a skipped payload
    /// runs past its end.
    Truncated,
}

/// Scans the records of `data` from index `at` for id `id`.
pub open spec fn locate_chunk(data: Seq<u8>, id: u32, at: nat) -> Located
    decreases (if at <= data.len() {
        data.len() - at
    } else {
        0
    }),
{
    if at == data.len() {
        Located::Absent
    } else if at + 8 > data.len() {
        Located::Truncated
    } else {
        let ty = spec_u32_le(data, at as int);
        let size = spec_u32_le(data, at + 4int) as nat;
        if chunk_id(ty) == id {
            Located::Found { ty, start: at + 8, size }
        } else {
            locate_chunk(data, id, at + 8 + size)
        }
    }
}

/// What reading chunk `id` of `data` gives: its payload, decompressed where
/// its type has the compression flag. Reaching the end of the data without
/// finding it is an error.
pub open spec fn chunk_contents(data: Seq<u8>, id: u32) -> Result<Seq<u8>, ChunkError> {
    match locate_chunk(data, id, 0) {
        Located::Absent => Err(ChunkError::Missing),
        Located::Truncated => Err(ChunkError::Truncated),
        Located::Found { ty, start, size } => {
            if start + size > data.len() {
                Err(ChunkError::Truncated)
            } else {
                let payload = data.subrange(start as int, (start + size) as int);
                if ty & ARCHIVE_COMPRESS_FLAG != 0 {
                    match lzh_decode(payload) {
                        Some(out) => Ok(out),
                        None => Err(ChunkError::Compression),
                    }
                } else {
                    Ok(payload)
                }
            }
        },
    }
}

/// Reads the first chunk of `data` whose id is `id`, skipping the others.
pub fn open_chunk(data: &[u8], id: u32) -> (r: Result<Vec<u8>, ChunkError>)
    ensures
        match r {
            Ok(v) => chunk_contents(data@, id) == Ok::<Seq<u8>, ChunkError>(v@),
            Err(e) => chunk_contents(data@, id) == Err::<Seq<u8>, ChunkError>(e),
        },
{
    let mut at: usize = 0;
    while at < data.len()
        invariant
            at <= data@.len(),
            locate_chunk(data@, id, at as nat) == locate_chunk(data@, id, 0),
        decreases data@.len() - at,
    {
        if data.len() - at < 8 {
            return Err(ChunkError::Truncated);
        }
        let ty = read_u32_le(data, at);
        let size = read_u32_le(data, at + 4) as usize;
        let start = at + 8;
        if ty & !ARCHIVE_COMPRESS_FLAG == id {
            if data.len() - start < size {
                return Err(ChunkError::Truncated);
            }
            let payload = slice_subrange(data, start, start + size);
            assert(payload@ == data@.subrange(start as int, (start + size) as int));
            if ty & ARCHIVE_COMPRESS_FLAG != 0 {
                return match decompress(payload) {
                    Ok(out) => Ok(out),
                    Err(_) => Err(ChunkError::Compression),
                };
            } else {
                return Ok(slice_to_vec(payload));
            }
        }
        if data.len() - start < size {
            assert(locate_chunk(data@, id, (start + size) as nat) == Located::Truncated);
            return Err(ChunkError::Truncated);
        }
        at = start + size;
    }
    Err(ChunkError::Missing)
}

/// One container record: type `ty` and `payload`.
pub open spec fn chunk_record(ty: u32, payload: Seq<u8>) -> Seq<u8> {
    spec_u32_to_le(ty) + spec_u32_to_le(payload.len() as u32) + payload
}

proof fn lemma_flag_bits(id: u32)
    requires
        id < ARCHIVE_COMPRESS_FLAG,
    ensures
        chunk_id(id) == id,
        id & ARCHIVE_COMPRESS_FLAG == 0,
        chunk_id(id | ARCHIVE_COMPRESS_FLAG) == id,
        (id | ARCHIVE_COMPRESS_FLAG) & ARCHIVE_COMPRESS_FLAG != 0,
{
    assert(id & !0x8000_0000u32 == id) by (bit_vector)
        requires
            id < 0x8000_0000u32,
    ;
    assert(id & 0x8000_0000u32 == 0) by (bit_vector)
        requires
            id < 0x8000_0000u32,
    ;
    assert((id | 0x8000_0000u32) & !0x8000_0000u32 == id) by (bit_vector)
        requires
            id < 0x8000_0000u32,
    ;
    assert((id | 0x8000_0000u32) & 0x8000_0000u32 != 0) by (bit_vector);
}

proof fn lemma_single_record(ty: u32, payload: Seq<u8>)
    requires
        payload.len() <= u32::MAX,
    ensures
        ({
            let data = chunk_record(ty, payload);
            &&& data.len() == payload.len() + 8
            &&& spec_u32_le(data, 0) == ty
            &&& spec_u32_le(data, 4) == payload.len()
            &&& data.subrange(8, data.len() as int) == payload
        }),
{
    let data = chunk_record(ty, payload);
    let len_bytes = spec_u32_to_le(payload.len() as u32);
    lemma_u32_le_roundtrip(ty, len_bytes + payload);
    assert(data == spec_u32_to_le(ty) + (len_bytes + payload));
    lemma_u32_le_roundtrip(payload.len() as u32, payload);
    assert(data.subrange(4, data.len() as int) == len_bytes + payload);
    assert(spec_u32_le(data, 4) == spec_u32_le(len_bytes + payload, 0));
    assert(data.subrange(8, data.len() as int) == payload);
}

/// Whether a payload is stored plainly or LZH-compressed is invisible to
/// the reader: a record of id `id` holding `payload`, and a record of type
/// `id | ARCHIVE_COMPRESS_FLAG` holding a stream that decodes to
/// `payload`, both read as `payload`.
pub proof fn lemma_compression_flag_transparent(id: u32, payload: Seq<u8>, encoded: Seq<u8>)
    requires
        id < ARCHIVE_COMPRESS_FLAG,
        payload.len() <= u32::MAX,
        encoded.len() <= u32::MAX,
        lzh_decode(encoded) == Some(payload),
    ensures
        chunk_contents(chunk_record(id, payload), id) == Ok::<Seq<u8>, ChunkError>(payload),
        chunk_contents(chunk_record(id | ARCHIVE_COMPRESS_FLAG, encoded), id) == Ok::<Seq<u8>, ChunkError>(payload),
{
    lemma_flag_bits(id);
    lemma_single_record(id, payload);
    lemma_single_record(id | ARCHIVE_COMPRESS_FLAG, encoded);
    let d1 = chunk_record(id, payload);
    let d2 = chunk_record(id | ARCHIVE_COMPRESS_FLAG, encoded);
    assert(d1.subrange(8, 8 + payload.len() as int) == payload);
    assert(d2.subrange(8, 8 + encoded.len() as int) == encoded);
}

/// The payloads of the length-prefixed records of `data` from index `at`:
/// each a little-endian `u16` length, then that many bytes. The list stops
/// at the first record that does not fit.
pub open spec fn records_from(data: Seq<u8>, at: nat) -> Seq<Seq<u8>>
    decreases (if at <= data.len() {
        data.len() - at
    } else {
        0
    }),
{
    if at + 2 > data.len() {
        Seq::empty()
    } else {
        let len = spec_u16_le(data, at as int) as nat;
        if at + 2 + len > data.len() {
            Seq::empty()
        } else {
            seq![data.subrange(at + 2int, at + 2 + len as int)] + records_from(data, at + 2 + len)
        }
    }
}

/// One file of an archive, as its table describes it.
pub struct FileEntry {
    pub size_real: u32,
    pub size_compressed: u32,
    pub crc: u32,
    pub name: Vec<u8>,
    pub ptr: u32,
}

/// A table entry with its name as a sequence.
pub struct EntryView {
    pub size_real: u32,
    pub size_compressed: u32,
    pub crc: u32,
    pub name: Seq<u8>,
    pub ptr: u32,
}

impl View for FileEntry {
    type V = EntryView;

    open spec fn view(&self) -> EntryView {
        EntryView {
            size_real: self.size_real,
            size_compressed: self.size_compressed,
            crc: self.crc,
            name: self.name@,
            ptr: self.ptr,
        }
    }
}

/// The entry that a record of at least 16 bytes describes: the real size,
/// the compressed size and the CRC, then the name in the legacy code page,
/// and last the offset of the data in the archive.
pub open spec fn entry_of(rec: Seq<u8>) -> EntryView {
    EntryView {
        size_real: spec_u32_le(rec, 0),
        size_compressed: spec_u32_le(rec, 4),
        crc: spec_u32_le(rec, 8),
        name: rec.subrange(12, rec.len() - 4),
        ptr: spec_u32_le(rec, rec.len() - 4),
    }
}

/// Whether every record is long enough to be an entry.
pub open spec fn all_entries(recs: Seq<Seq<u8>>) -> bool {
    forall|i: int| 0 <= i < recs.len() ==> (#[trigger] recs[i]).len() >= 16
}

/// The file table that `data` holds; `None` where a record is too short
/// to be an entry.
pub open spec fn file_table(data: Seq<u8>) -> Option<Seq<EntryView>> {
    let recs = records_from(data, 0);
    if all_entries(recs) {
        Some(recs.map_values(|rec: Seq<u8>| entry_of(rec)))
    } else {
        None
    }
}

/// Reads the entry that the record `rec` describes.
fn read_entry(rec: &[u8]) -> (r: FileEntry)
    requires
        rec@.len() >= 16,
    ensures
        r@ == entry_of(rec@),
{
    let end = rec.len();
    let name = slice_to_vec(slice_subrange(rec, 12, end - 4));
    FileEntry {
        size_real: read_u32_le(rec, 0),
        size_compressed: read_u32_le(rec, 4),
        crc: read_u32_le(rec, 8),
        name,
        ptr: read_u32_le(rec, end - 4),
    }
}

/// Reads the table of files of an archive from the payload of its file
/// chunk.
pub fn parse_file_table(data: &[u8]) -> (r: Option<Vec<FileEntry>>)
    ensures
        match r {
            Some(v) => {
                &&& file_table(data@) is Some
                &&& file_table(data@)->Some_0.len() == v@.len()
                &&& forall|i: int| 0 <= i < v@.len() ==> #[trigger] file_table(data@)->Some_0[i] == v@[i]@
            },
            None => file_table(data@) is None,
        },
{
    let ghost recs = records_from(data@, 0);
    let ghost mut done: Seq<Seq<u8>> = Seq::empty();
    let mut entries: Vec<FileEntry> = Vec::new();
    let mut at: usize = 0;
    let mut more = true;
    while more && data.len() - at >= 2
        invariant
            at <= data@.len(),
            recs == records_from(data@, 0),
            !more ==> records_from(data@, at as nat) == Seq::<Seq<u8>>::empty(),
            recs == done + records_from(data@, at as nat),
            done.len() == entries@.len(),
            forall|i: int| 0 <= i < done.len() ==> (#[trigger] done[i]).len() >= 16,
            forall|i: int| 0 <= i < done.len() ==> #[trigger] entries@[i]@ == entry_of(done[i]),
        decreases data@.len() - at + (if more {
            1int
        } else {
            0
        }),
    {
        let len = read_u16_le(data, at) as usize;
        if data.len() - at - 2 < len {
            more = false;
        } else {
            let rec = slice_subrange(data, at + 2, at + 2 + len);
            let ghost rest = records_from(data@, (at + 2 + len) as nat);
            assert(records_from(data@, at as nat) == seq![rec@] + rest);
            if len < 16 {
                assert(recs[done.len() as int] == rec@);
                assert(!all_entries(recs));
                return None;
            }
            entries.push(read_entry(rec));
            proof {
                assert(done + (seq![rec@] + rest) == done.push(rec@) + rest);
                done = done.push(rec@);
            }
            at = at + 2 + len;
        }
    }
    assert(records_from(data@, at as nat) == Seq::<Seq<u8>>::empty());
    assert(recs == done);
    assert(all_entries(recs));
    assert(file_table(data@) is Some);
    assert forall|i: int| 0 <= i < entries@.len() implies #[trigger] file_table(data@)->Some_0[i] == entries@[i]@ by {
        assert(file_table(data@)->Some_0[i] == entry_of(recs[i]));
    }
    Some(entries)
}

} // verus!
