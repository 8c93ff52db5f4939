//! One archived file: its metadata and, once loaded, its compressed payload.

use vstd::prelude::*;
use vstd::utf8::{decode_utf8, encode_utf8, valid_utf8};

use crate::error::ArchiveError;
use crate::layout::{
    append_bytes, append_le32, append_zeros, path_field, record_bytes,
    lemma_le32_round_trip, MAX_PATH_BYTES, PATH_FIELD_SIZE, RECORD_SIZE,
};
use crate::zlib::{deflate_fast, inflate, zlib_deflate, zlib_inflate};

verus! {

/// The string `String::from_utf8_lossy` makes of `b`.
pub uninterp spec fn utf8_lossy(b: Seq<u8>) -> Seq<char>;

/// Relies on `String::from_utf8_lossy`: decodes `b`, replacing invalid
/// sequences; valid UTF-8 comes back as the characters it encodes.
#[verifier::external_body]
pub(crate) fn decode_lossy(b: &[u8]) -> (r: String)
    ensures
        r@ == utf8_lossy(b@),
        valid_utf8(b@) ==> r@ == decode_utf8(b@),
{
    String::from_utf8_lossy(b).into_owned()
}

/// The path read from the bytes `b` of a path field: the characters they
/// encode where they are valid UTF-8, else the lossy decoding.
pub open spec fn lossy_path(b: Seq<u8>) -> Seq<char> {
    if valid_utf8(b) {
        decode_utf8(b)
    } else {
        utf8_lossy(b)
    }
}

/// The bytes a path takes in the table: its UTF-8 encoding.
pub open spec fn path_bytes(path: Seq<char>) -> Seq<u8> {
    encode_utf8(path)
}

/// The abstract content of an entry.
pub struct EntryModel {
    pub path: Seq<char>,
    pub payload: Seq<u8>,
    pub raw_size: u32,
    pub comp_size: u32,
    pub alloc_size: u32,
    pub data_offset: u32,
}

/// One archived file. An entry whose compressed and raw sizes are both zero
/// is a tombstone (deleted).
#[derive(Debug)]
pub struct EtFile {
    /// Stored path, backslash-separated with a leading separator.
    pub path: String,
    /// The compressed payload; empty until filled.
    pub comp_data: Vec<u8>,
    /// Uncompressed length of the source file.
    pub file_size: u32,
    /// Length of the compressed payload.
    pub comp_size: u32,
    /// Absolute offset of the payload region in the archive.
    pub data_offset: u32,
    /// Size of the payload region reserved in the archive.
    pub alloc_size: u32,
}

impl View for EtFile {
    type V = EntryModel;

    open spec fn view(&self) -> EntryModel {
        EntryModel {
            path: self.path@,
            payload: self.comp_data@,
            raw_size: self.file_size,
            comp_size: self.comp_size,
            alloc_size: self.alloc_size,
            data_offset: self.data_offset,
        }
    }
}

/// The entry that adding `data` under `path` yields, with its payload
/// compressed and its offset not yet placed.
pub open spec fn source_entry(data: Seq<u8>, path: Seq<char>) -> EntryModel {
    EntryModel {
        path,
        payload: zlib_deflate(data),
        raw_size: data.len() as u32,
        comp_size: zlib_deflate(data).len() as u32,
        alloc_size: zlib_deflate(data).len() as u32,
        data_offset: 0,
    }
}

/// The errors that making an entry from `data` under `path` may give: the
/// path too long for its field, or else sizes beyond 32 bits.
pub open spec fn source_error(data: Seq<u8>, path: Seq<char>, x: ArchiveError) -> bool {
    ||| x == ArchiveError::InvalidFormat && path_bytes(path).len() > MAX_PATH_BYTES
    ||| x == ArchiveError::InvalidInput && path_bytes(path).len() <= MAX_PATH_BYTES && (data.len()
        > u32::MAX || zlib_deflate(data).len() > u32::MAX)
}

/// The table record of an entry.
pub open spec fn entry_record(e: EntryModel) -> Seq<u8> {
    record_bytes(path_bytes(e.path), e.comp_size, e.raw_size, e.alloc_size, e.data_offset)
}

pub proof fn lemma_entry_record_len(e: EntryModel)
    requires
        path_bytes(e.path).len() <= MAX_PATH_BYTES,
    ensures
        entry_record(e).len() == RECORD_SIZE,
{
    lemma_le32_round_trip(e.comp_size);
    lemma_le32_round_trip(e.raw_size);
    lemma_le32_round_trip(e.alloc_size);
    lemma_le32_round_trip(e.data_offset);
}

impl EtFile {
    /// An entry for the source bytes `data` stored under `path`: the payload
    /// is compressed at the fastest level (never empty, so the entry is never
    /// a tombstone), the raw size is the source length, and the allocated
    /// size equals the compressed size. Fails with `InvalidFormat` for a path
    /// over 255 bytes, else with `InvalidInput` where a size does not fit in
    /// 32 bits, and succeeds otherwise.
    pub fn from_source(data: &[u8], path: &str) -> (r: Result<EtFile, ArchiveError>)
        ensures
            path_bytes(path@).len() > MAX_PATH_BYTES ==> r == Err::<EtFile, ArchiveError>(
                ArchiveError::InvalidFormat,
            ),
            path_bytes(path@).len() <= MAX_PATH_BYTES && data@.len() > u32::MAX ==> r == Err::<
                EtFile,
                ArchiveError,
            >(ArchiveError::InvalidInput),
            r matches Ok(e) ==> e@ == source_entry(data@, path@) && path_bytes(path@).len()
                <= MAX_PATH_BYTES && data@.len() <= u32::MAX && zlib_deflate(data@).len()
                <= u32::MAX,
            path_bytes(path@).len() <= MAX_PATH_BYTES && data@.len() <= u32::MAX && zlib_deflate(
                data@,
            ).len() <= u32::MAX ==> (r matches Ok(e) && e@ == source_entry(data@, path@)),
            r matches Ok(e) ==> e@.payload.len() > 0,
            r matches Err(x) ==> source_error(data@, path@, x),
    {
        if path.as_bytes().len() > MAX_PATH_BYTES {
            return Err(ArchiveError::InvalidFormat);
        }
        if data.len() > u32::MAX as usize {
            return Err(ArchiveError::InvalidInput);
        }
        let comp_data = deflate_fast(data).unwrap();
        Self::from_compressed(data.len(), comp_data, path)
    }

    /// An entry stored under `path` for a source of `raw_len` bytes whose
    /// compressed payload is `comp_data`; the allocated size equals the
    /// compressed size. Fails with `InvalidFormat` for a path longer than
    /// 255 bytes, and with `InvalidInput` where a size does not fit in 32 bits.
    pub fn from_compressed(raw_len: usize, comp_data: Vec<u8>, path: &str) -> (r: Result<EtFile, ArchiveError>)
        ensures
            path_bytes(path@).len() > MAX_PATH_BYTES ==> r == Err::<EtFile, ArchiveError>(
                ArchiveError::InvalidFormat,
            ),
            path_bytes(path@).len() <= MAX_PATH_BYTES && (raw_len > u32::MAX || comp_data@.len()
                > u32::MAX) ==> r == Err::<EtFile, ArchiveError>(ArchiveError::InvalidInput),
            path_bytes(path@).len() <= MAX_PATH_BYTES && raw_len <= u32::MAX && comp_data@.len()
                <= u32::MAX ==> (r matches Ok(e) && e@ == (EntryModel {
                path: path@,
                payload: comp_data@,
                raw_size: raw_len as u32,
                comp_size: comp_data@.len() as u32,
                alloc_size: comp_data@.len() as u32,
                data_offset: 0,
            })),
    {
        if path.as_bytes().len() > MAX_PATH_BYTES {
            return Err(ArchiveError::InvalidFormat);
        }
        if raw_len > u32::MAX as usize || comp_data.len() > u32::MAX as usize {
            return Err(ArchiveError::InvalidInput);
        }
        let comp_size = comp_data.len() as u32;
        Ok(EtFile {
            path: path.to_owned(),
            comp_data,
            file_size: raw_len as u32,
            comp_size,
            data_offset: 0,
            alloc_size: comp_size,
        })
    }

    /// An entry with only a path: all sizes and the offset zero, no payload.
    pub fn empty_meta(path: &str) -> (r: EtFile)
        ensures
            r@ == (EntryModel {
                path: path@,
                payload: Seq::empty(),
                raw_size: 0,
                comp_size: 0,
                alloc_size: 0,
                data_offset: 0,
            }),
    {
        EtFile {
            path: path.to_owned(),
            comp_data: Vec::new(),
            file_size: 0,
            comp_size: 0,
            data_offset: 0,
            alloc_size: 0,
        }
    }

    /// Whether this entry is a tombstone: both sizes zero.
    pub fn is_deleted(&self) -> (r: bool)
        ensures
            r == (self.comp_size == 0 && self.file_size == 0),
    {
        self.comp_size == 0 && self.file_size == 0
    }

    /// The compressed payload.
    pub fn get_compressed_data(&self) -> (r: &Vec<u8>)
        ensures
            r@ == self.comp_data@,
    {
        &self.comp_data
    }

    /// The inflated payload; `CorruptData` where the payload is not a valid
    /// zlib stream. A payload that the codec produced from some bytes
    /// inflates back to exactly those bytes.
    pub fn get_decompressed_data(&self) -> (r: Result<Vec<u8>, ArchiveError>)
        ensures
            r matches Ok(v) ==> zlib_inflate(self.comp_data@) == Some(v@),
            r is Err <==> zlib_inflate(self.comp_data@) is None,
            r is Err ==> r == Err::<Vec<u8>, ArchiveError>(ArchiveError::CorruptData),
            forall|x: Seq<u8>|
                #[trigger] zlib_deflate(x) == self.comp_data@ ==> (r matches Ok(v) && v@ == x),
    {
        match inflate(self.comp_data.as_slice()) {
            Some(v) => Ok(v),
            None => Err(ArchiveError::CorruptData),
        }
    }

    /// The 316-byte table record of this entry: the path null-padded to 256
    /// bytes, then compressed, raw and allocated sizes and the data offset,
    /// little-endian, then 44 zero bytes. A path longer than 255 bytes is
    /// rejected with `InvalidFormat`.
    pub fn get_file_info(&self) -> (r: Result<Vec<u8>, ArchiveError>)
        ensures
            path_bytes(self.path@).len() > MAX_PATH_BYTES ==> r == Err::<Vec<u8>, ArchiveError>(
                ArchiveError::InvalidFormat,
            ),
            path_bytes(self.path@).len() <= MAX_PATH_BYTES ==> (r matches Ok(v) && v@
                == entry_record(self@)),
            r matches Ok(v) ==> v@.len() == RECORD_SIZE,
    {
        let p = self.path.as_str().as_bytes();
        if p.len() > MAX_PATH_BYTES {
            return Err(ArchiveError::InvalidFormat);
        }
        let mut data: Vec<u8> = Vec::new();
        append_bytes(&mut data, p);
        append_zeros(&mut data, PATH_FIELD_SIZE - p.len());
        assert(data@ == path_field(path_bytes(self.path@)));
        append_le32(&mut data, self.comp_size);
        append_le32(&mut data, self.file_size);
        append_le32(&mut data, self.alloc_size);
        append_le32(&mut data, self.data_offset);
        append_zeros(&mut data, 44);
        proof {
            lemma_le32_round_trip(self.comp_size);
            lemma_le32_round_trip(self.file_size);
            lemma_le32_round_trip(self.alloc_size);
            lemma_le32_round_trip(self.data_offset);
        }
        Ok(data)
    }
}

} // verus!
