//! The archive itself: a writer that collects entries and lays out the
//! archive bytes, and a reader that parses them back.

use vstd::bytes::u32_to_le_bytes;
use vstd::prelude::*;
use vstd::slice::{slice_subrange, slice_to_vec};

use crate::error::ArchiveError;
use crate::etfile::{decode_lossy, lossy_path, entry_record, lemma_entry_record_len, path_bytes, source_entry, source_error, EntryModel, EtFile};
use crate::layout::{
    append_bytes, patch_bytes, first_zero_from, le32_at, lemma_first_zero_scan, magic, has_magic,
    read_le32, PATH_FIELD_SIZE, encode_header, header_bytes, HEADER_SIZE, MAX_PATH_BYTES, RECORD_SIZE,
    COUNT_OFFSET, TABLE_OFFSET_OFFSET, lemma_le32_round_trip,
};
use crate::proofs::lemma_header_consistency;
use crate::utils::{contains_str, is_substring, stored_form, to_stored_path};
use crate::zlib::zlib_deflate;

verus! {

/// What an archive handle is doing: collecting entries, done writing, or
/// holding entries read from an archive.
#[derive(Debug, Clone, Copy, PartialEq, Eq, Structural)]
pub enum OpenMode {
    Read,
    Write,
    Finalized,
}

/// The abstract state of an archive handle.
pub struct FsModel {
    pub mode: OpenMode,
    pub files: Seq<EntryModel>,
    pub image: Seq<u8>,
    pub file_count: u32,
    pub offset: u32,
}

/// An archive being written, or one that was read.
pub struct EtFileSystem {
    mode: OpenMode,
    file_name: String,
    file_count: u32,
    offset: u32,
    files: Vec<EtFile>,
    image: Vec<u8>,
}

pub open spec fn models(fs: Seq<EtFile>) -> Seq<EntryModel> {
    fs.map_values(|e: EtFile| e@)
}

/// Total length of the payloads of `es`.
pub open spec fn payload_total(es: Seq<EntryModel>) -> nat
    decreases es.len(),
{
    if es.len() == 0 {
        0
    } else {
        payload_total(es.drop_last()) + es.last().payload.len()
    }
}

/// The payloads of `es`, back to back.
pub open spec fn payloads(es: Seq<EntryModel>) -> Seq<u8>
    decreases es.len(),
{
    if es.len() == 0 {
        Seq::empty()
    } else {
        payloads(es.drop_last()) + es.last().payload
    }
}

/// The table records of `es`, back to back.
pub open spec fn records(es: Seq<EntryModel>) -> Seq<u8>
    decreases es.len(),
{
    if es.len() == 0 {
        Seq::empty()
    } else {
        records(es.drop_last()) + entry_record(es.last())
    }
}

/// Where the payload of entry `i` starts when the payloads of `es` are laid
/// out back to back after the header.
pub open spec fn payload_start(es: Seq<EntryModel>, i: int) -> nat {
    (HEADER_SIZE + payload_total(es.subrange(0, i))) as nat
}

/// Where the table starts: right after the last payload.
pub open spec fn table_offset(es: Seq<EntryModel>) -> nat {
    (HEADER_SIZE + payload_total(es)) as nat
}

/// `es` with each data offset set to where its payload is laid out.
pub open spec fn placed(es: Seq<EntryModel>) -> Seq<EntryModel> {
    Seq::new(
        es.len(),
        |i: int|
            EntryModel {
                path: es[i].path,
                payload: es[i].payload,
                raw_size: es[i].raw_size,
                comp_size: es[i].comp_size,
                alloc_size: es[i].alloc_size,
                data_offset: payload_start(es, i) as u32,
            },
    )
}

/// The archive that `es` makes: the header with the final count and table
/// offset, the payloads, then the table.
pub open spec fn archive_bytes(es: Seq<EntryModel>) -> Seq<u8> {
    header_bytes(es.len() as u32, table_offset(es) as u32) + payloads(es) + records(es)
}

/// An entry as the writer makes it: an encodable path, and a payload whose
/// length is both its compressed and its allocated size.
pub open spec fn writable_entry(e: EntryModel) -> bool {
    &&& path_bytes(e.path).len() <= MAX_PATH_BYTES
    &&& e.payload.len() == e.comp_size
    &&& e.comp_size == e.alloc_size
}

/// Whether every size and offset of the archive of `es` fits in 32 bits.
pub open spec fn fits_u32(es: Seq<EntryModel>) -> bool {
    es.len() <= u32::MAX && table_offset(es) <= u32::MAX
}

pub proof fn lemma_payloads_len(es: Seq<EntryModel>)
    ensures
        payloads(es).len() == payload_total(es),
    decreases es.len(),
{
    if es.len() > 0 {
        lemma_payloads_len(es.drop_last());
    }
}

pub proof fn lemma_records_len(es: Seq<EntryModel>)
    requires
        forall|i: int| 0 <= i < es.len() ==> path_bytes(#[trigger] es[i].path).len() <= MAX_PATH_BYTES,
    ensures
        records(es).len() == RECORD_SIZE * es.len(),
    decreases es.len(),
{
    if es.len() > 0 {
        lemma_records_len(es.drop_last());
        lemma_entry_record_len(es.last());
    }
}

pub proof fn lemma_payload_total_prefix(es: Seq<EntryModel>, i: int, j: int)
    requires
        0 <= i <= j <= es.len(),
    ensures
        payload_total(es.subrange(0, i)) <= payload_total(es.subrange(0, j)),
    decreases j - i,
{
    if i < j {
        lemma_payload_total_prefix(es, i, j - 1);
        assert(es.subrange(0, j).drop_last() =~= es.subrange(0, j - 1));
    }
}

pub proof fn lemma_payloads_placed(es: Seq<EntryModel>)
    ensures
        payloads(placed(es)) == payloads(es),
    decreases es.len(),
{
    if es.len() > 0 {
        let p = placed(es);
        let q = es.drop_last();
        lemma_payloads_placed(q);
        assert(p.drop_last().len() == placed(q).len());
        assert forall|i: int| 0 <= i < q.len() implies p.drop_last()[i].payload == #[trigger] placed(q)[i].payload by {}
        lemma_payloads_same(p.drop_last(), placed(q));
    }
}

/// Payloads depend on the payload fields alone.
pub proof fn lemma_payloads_same(a: Seq<EntryModel>, b: Seq<EntryModel>)
    requires
        a.len() == b.len(),
        forall|i: int| 0 <= i < a.len() ==> #[trigger] a[i].payload == b[i].payload,
    ensures
        payloads(a) == payloads(b),
    decreases a.len(),
{
    if a.len() > 0 {
        lemma_payloads_same(a.drop_last(), b.drop_last());
    }
}

/// The record in table slot `k` of the archive `b` whose table is at `table`.
pub open spec fn slot_record(b: Seq<u8>, table: int, k: int) -> Seq<u8> {
    b.subrange(table + k * RECORD_SIZE, table + (k + 1) * RECORD_SIZE)
}

/// A record with both sizes zero marks a deleted entry.
pub open spec fn record_is_tombstone(r: Seq<u8>) -> bool {
    le32_at(r, 256) == 0 && le32_at(r, 260) == 0
}

/// Length of the path in a record: the bytes before the first zero.
pub open spec fn record_path_end(r: Seq<u8>) -> int {
    first_zero_from(r.subrange(0, PATH_FIELD_SIZE as int), 0)
}

/// The record's payload region lies within the archive.
pub open spec fn record_in_bounds(b: Seq<u8>, r: Seq<u8>) -> bool {
    le32_at(r, 268) + le32_at(r, 264) <= b.len()
}

/// The entry that a live record describes, with its payload region read
/// from the archive.
pub open spec fn record_entry(b: Seq<u8>, r: Seq<u8>) -> EntryModel {
    EntryModel {
        path: lossy_path(r.subrange(0, record_path_end(r))),
        payload: b.subrange(le32_at(r, 268) as int, le32_at(r, 268) + le32_at(r, 264)),
        comp_size: le32_at(r, 256),
        raw_size: le32_at(r, 260),
        alloc_size: le32_at(r, 264),
        data_offset: le32_at(r, 268),
    }
}

/// What one record gives: `InvalidFormat` for a path without terminator
/// (in any slot), nothing for a tombstone, `IOFailure` for a payload region
/// past the end, else the entry.
pub open spec fn record_result(b: Seq<u8>, r: Seq<u8>) -> Result<Option<EntryModel>, ArchiveError> {
    if record_path_end(r) >= PATH_FIELD_SIZE {
        Err(ArchiveError::InvalidFormat)
    } else if record_is_tombstone(r) {
        Ok(None)
    } else if !record_in_bounds(b, r) {
        Err(ArchiveError::IOFailure)
    } else {
        Ok(Some(record_entry(b, r)))
    }
}

/// The live entries of the first `n` table slots, in slot order, or the
/// first slot's error.
pub open spec fn parse_slots(b: Seq<u8>, table: int, n: nat) -> Result<Seq<EntryModel>, ArchiveError>
    decreases n,
{
    if n == 0 {
        Ok(Seq::empty())
    } else {
        match parse_slots(b, table, (n - 1) as nat) {
            Err(e) => Err(e),
            Ok(es) => match record_result(b, slot_record(b, table, n - 1)) {
                Err(e) => Err(e),
                Ok(None) => Ok(es),
                Ok(Some(e)) => Ok(es.push(e)),
            },
        }
    }
}

/// The entry count stored in the header of `b`.
pub open spec fn header_count(b: Seq<u8>) -> u32 {
    le32_at(b, COUNT_OFFSET as int)
}

/// The table offset stored in the header of `b`.
pub open spec fn header_table(b: Seq<u8>) -> u32 {
    le32_at(b, TABLE_OFFSET_OFFSET as int)
}

/// What reading the archive `b` gives: `InvalidFormat` for a short header,
/// a wrong signature or a table past the end, else the live entries of its
/// table.
pub open spec fn parse_archive(b: Seq<u8>) -> Result<Seq<EntryModel>, ArchiveError> {
    if b.len() < HEADER_SIZE || b.subrange(0, 32) != magic() {
        Err(ArchiveError::InvalidFormat)
    } else if header_table(b) + header_count(b) * RECORD_SIZE > b.len() {
        Err(ArchiveError::InvalidFormat)
    } else {
        parse_slots(b, header_table(b) as int, header_count(b) as nat)
    }
}

pub proof fn lemma_parse_slots_err(b: Seq<u8>, table: int, n: nat, m: nat)
    requires
        n <= m,
        parse_slots(b, table, n) is Err,
    ensures
        parse_slots(b, table, m) == parse_slots(b, table, n),
    decreases m,
{
    if n < m {
        lemma_parse_slots_err(b, table, n, (m - 1) as nat);
    }
}

/// The entries of `es` whose path contains `needle`, in order.
pub open spec fn matching(es: Seq<EntryModel>, needle: Seq<char>) -> Seq<EntryModel>
    decreases es.len(),
{
    if es.len() == 0 {
        Seq::empty()
    } else if is_substring(needle, es.last().path) {
        matching(es.drop_last(), needle).push(es.last())
    } else {
        matching(es.drop_last(), needle)
    }
}

pub open spec fn ref_models(fs: Seq<&EtFile>) -> Seq<EntryModel> {
    fs.map_values(|e: &EtFile| e@)
}

impl View for EtFileSystem {
    type V = FsModel;

    closed spec fn view(&self) -> FsModel {
        FsModel {
            mode: self.mode,
            files: models(self.files@),
            image: self.image@,
            file_count: self.file_count,
            offset: self.offset,
        }
    }
}

impl EtFileSystem {
    /// Well-formedness: a writer holds the provisional header and only
    /// entries it can encode.
    pub closed spec fn wf(&self) -> bool {
        self.mode == OpenMode::Write ==> {
            &&& self.image@ == header_bytes(0, 0)
            &&& forall|i: int| 0 <= i < self.files@.len() ==> writable_entry(#[trigger] self.files@[i]@)
        }
    }

    pub closed spec fn name(&self) -> Seq<char> {
        self.file_name@
    }

    /// A new archive writer for `file_name`: no entries yet, and the
    /// provisional header (count and table offset zero) already laid out.
    pub fn write(file_name: &str) -> (r: Self)
        ensures
            r.wf(),
            r@.mode == OpenMode::Write,
            r@.files == Seq::<EntryModel>::empty(),
            r@.image == header_bytes(0, 0),
            r@.file_count == 0,
            r@.offset == 0,
            r.name() == file_name@,
    {
        EtFileSystem {
            mode: OpenMode::Write,
            file_name: file_name.to_owned(),
            file_count: 0,
            offset: 0,
            files: Vec::new(),
            image: encode_header(0, 0),
        }
    }

    /// Same as `write`, taking the name by value.
    pub fn new(file_name: String) -> (r: Self)
        ensures
            r.wf(),
            r@.mode == OpenMode::Write,
            r@.files == Seq::<EntryModel>::empty(),
            r@.image == header_bytes(0, 0),
            r@.file_count == 0,
            r@.offset == 0,
            r.name() == file_name@,
    {
        Self::write(file_name.as_str())
    }

    /// Adds the source bytes `data` under the archive location
    /// `file_location`, put in stored form first (a leading backslash, and
    /// backslash separators, unless it already starts with a backslash).
    /// Only a writer takes entries (`InvalidInput` otherwise); the entry is
    /// made as `EtFile::from_source` makes it and appended. It fails with
    /// `InvalidFormat` for a stored path over 255 bytes and with
    /// `InvalidInput` for sizes beyond 32 bits; on any error the handle is
    /// left as it was.
    pub fn add_file(&mut self, data: &[u8], file_location: &str) -> (r: Result<(), ArchiveError>)
        requires
            old(self).wf(),
        ensures
            final(self).wf(),
            final(self).name() == old(self).name(),
            old(self)@.mode != OpenMode::Write ==> r == Err::<(), ArchiveError>(
                ArchiveError::InvalidInput,
            ),
            old(self)@.mode == OpenMode::Write && path_bytes(stored_form(file_location@)).len()
                > MAX_PATH_BYTES ==> r == Err::<(), ArchiveError>(ArchiveError::InvalidFormat),
            old(self)@.mode == OpenMode::Write && path_bytes(stored_form(file_location@)).len()
                <= MAX_PATH_BYTES && data@.len() <= u32::MAX && zlib_deflate(data@).len()
                <= u32::MAX ==> r is Ok,
            r matches Err(x) ==> final(self)@ == old(self)@ && (old(self)@.mode != OpenMode::Write
                || source_error(data@, stored_form(file_location@), x)),
            r is Ok ==> old(self)@.mode == OpenMode::Write && final(self)@ == (FsModel {
                mode: old(self)@.mode,
                files: old(self)@.files.push(source_entry(data@, stored_form(file_location@))),
                image: old(self)@.image,
                file_count: old(self)@.file_count,
                offset: old(self)@.offset,
            }),
    {
        match self.mode {
            OpenMode::Write => {},
            _ => {
                return Err(ArchiveError::InvalidInput);
            },
        }
        let stored = to_stored_path(file_location);
        let e = EtFile::from_source(data, stored.as_str())?;
        let ghost before = self.files@;
        self.files.push(e);
        proof {
            assert(models(self.files@) =~= models(before).push(source_entry(data@, stored@)));
            assert forall|i: int| 0 <= i < self.files@.len() implies writable_entry(
                #[trigger] self.files@[i]@,
            ) by {
                if i < before.len() {
                    assert(self.files@[i] == before[i]);
                }
            }
        }
        Ok(())
    }

    /// Whether the archive of the current entries keeps every count and
    /// offset within 32 bits.
    fn offsets_fit(&self) -> (r: bool)
        requires
            self.wf(),
            self.mode == OpenMode::Write,
        ensures
            r == fits_u32(self@.files),
    {
        let ghost orig = models(self.files@);
        let n = self.files.len();
        if n > u32::MAX as usize {
            return false;
        }
        let mut total: u64 = HEADER_SIZE as u64;
        let mut i: usize = 0;
        while i < n
            invariant
                self.wf(),
                self.mode == OpenMode::Write,
                orig == models(self.files@),
                n == self.files@.len(),
                n <= u32::MAX,
                i <= n,
                total == HEADER_SIZE + payload_total(orig.subrange(0, i as int)),
                total <= u32::MAX,
            decreases n - i,
        {
            assert(writable_entry(self.files@[i as int]@));
            total = total + self.files[i].comp_data.len() as u64;
            assert(orig.subrange(0, i + 1).drop_last() =~= orig.subrange(0, i as int));
            if total > u32::MAX as u64 {
                proof {
                    lemma_payload_total_prefix(orig, i + 1, n as int);
                    assert(orig.subrange(0, n as int) =~= orig);
                }
                return false;
            }
            i = i + 1;
        }
        assert(orig.subrange(0, n as int) =~= orig);
        true
    }

    /// Appends each payload to the image in order, recording where it
    /// starts; returns the position after the last one.
    fn write_data(&mut self) -> (r: u32)
        requires
            old(self).wf(),
            old(self).mode == OpenMode::Write,
            fits_u32(old(self)@.files),
        ensures
            final(self).mode == OpenMode::Write,
            final(self).file_name == old(self).file_name,
            final(self).file_count == old(self).file_count,
            final(self).offset == old(self).offset,
            final(self)@.files == placed(old(self)@.files),
            final(self)@.image == header_bytes(0, 0) + payloads(old(self)@.files),
            r == table_offset(old(self)@.files),
    {
        let ghost orig = models(self.files@);
        let n = self.files.len();
        let mut pos: u32 = HEADER_SIZE as u32;
        let mut i: usize = 0;
        while i < n
            invariant
                orig.len() == n,
                table_offset(orig) <= u32::MAX,
                forall|k: int| 0 <= k < n ==> writable_entry(#[trigger] orig[k]),
                self.mode == OpenMode::Write,
                self.file_name == old(self).file_name,
                self.file_count == old(self).file_count,
                self.offset == old(self).offset,
                n == self.files@.len(),
                i <= n,
                pos == payload_start(orig, i as int),
                forall|k: int| 0 <= k < i ==> #[trigger] models(self.files@)[k] == placed(orig)[k],
                forall|k: int| i <= k < n ==> #[trigger] models(self.files@)[k] == orig[k],
                self.image@ == header_bytes(0, 0) + payloads(orig.subrange(0, i as int)),
            decreases n - i,
        {
            proof {
                lemma_payload_total_prefix(orig, i + 1, n as int);
                assert(orig.subrange(0, n as int) =~= orig);
                assert(orig.subrange(0, i + 1).drop_last() =~= orig.subrange(0, i as int));
                assert(models(self.files@)[i as int] == orig[i as int]);
                assert(writable_entry(orig[i as int]));
            }
            let ghost before = self.files@;
            let mut e = EtFile::empty_meta("");
            self.files.set_and_swap(i, &mut e);
            e.data_offset = pos;
            append_bytes(&mut self.image, e.comp_data.as_slice());
            pos = pos + e.comp_data.len() as u32;
            self.files.set(i, e);
            proof {
                assert(e@ == placed(orig)[i as int]);
                assert forall|k: int| 0 <= k < n && k != i implies self.files@[k] == before[k] by {}
                assert forall|k: int| 0 <= k < n && k != i implies #[trigger] models(self.files@)[k]
                    == models(before)[k] by {
                    assert(self.files@[k] == before[k]);
                }
            }
            i = i + 1;
            assert(self.image@ =~= header_bytes(0, 0) + payloads(orig.subrange(0, i as int)));
        }
        assert(models(self.files@) =~= placed(orig));
        assert(orig.subrange(0, n as int) =~= orig);
        pos
    }

    /// Appends the table record of each entry to the image, in order.
    fn write_footer(&mut self)
        requires
            forall|k: int| 0 <= k < old(self)@.files.len() ==> path_bytes(#[trigger] old(self)@.files[k].path).len() <= MAX_PATH_BYTES,
        ensures
            final(self).mode == old(self).mode,
            final(self).file_name == old(self).file_name,
            final(self).file_count == old(self).file_count,
            final(self).offset == old(self).offset,
            final(self).files == old(self).files,
            final(self)@.image == old(self)@.image + records(old(self)@.files),
    {
        let ghost done = models(self.files@);
        assert(done == old(self)@.files);
        let n = self.files.len();
        let mut i: usize = 0;
        while i < n
            invariant
                self.mode == old(self).mode,
                self.file_name == old(self).file_name,
                self.file_count == old(self).file_count,
                self.offset == old(self).offset,
                self.files == old(self).files,
                done == models(self.files@),
                forall|k: int| 0 <= k < n ==> path_bytes(#[trigger] done[k].path).len() <= MAX_PATH_BYTES,
                n == done.len(),
                i <= n,
                self.image@ == old(self)@.image + records(done.subrange(0, i as int)),
            decreases n - i,
        {
            assert(path_bytes(done[i as int].path).len() <= MAX_PATH_BYTES);
            let rec = self.files[i].get_file_info();
            match rec {
                Ok(bytes) => {
                    append_bytes(&mut self.image, bytes.as_slice());
                },
                Err(_) => {},
            }
            i = i + 1;
            assert(done.subrange(0, i as int).drop_last() =~= done.subrange(0, i - 1));
            assert(self.image@ =~= old(self)@.image + records(done.subrange(0, i as int)));
        }
        assert(done.subrange(0, n as int) =~= done);
    }

    /// Finishes a writer: lays out each payload in insertion order right
    /// after the header, recording its data offset; then the table, one
    /// record per entry in the same order; then patches the header with the
    /// entry count and the table offset. The handle is then finalized.
    /// Fails with `InvalidInput`, leaving the handle as it was, where the
    /// handle is not a writer or the archive's offsets do not fit in 32 bits.
    pub fn close_file_system(&mut self) -> (r: Result<(), ArchiveError>)
        requires
            old(self).wf(),
        ensures
            final(self).wf(),
            final(self).name() == old(self).name(),
            r is Err <==> old(self)@.mode != OpenMode::Write || !fits_u32(old(self)@.files),
            r is Err ==> r == Err::<(), ArchiveError>(ArchiveError::InvalidInput) && final(self)@
                == old(self)@,
            r is Ok ==> {
                &&& final(self)@.mode == OpenMode::Finalized
                &&& final(self)@.files == placed(old(self)@.files)
                &&& final(self)@.image == archive_bytes(final(self)@.files)
                &&& final(self)@.file_count == old(self)@.files.len()
                &&& final(self)@.offset == table_offset(old(self)@.files)
                &&& header_count(final(self)@.image) == old(self)@.files.len()
                &&& header_table(final(self)@.image) == table_offset(old(self)@.files)
                &&& table_offset(old(self)@.files) >= HEADER_SIZE
                &&& final(self)@.image.len() == table_offset(old(self)@.files) + RECORD_SIZE
                    * old(self)@.files.len()
                &&& final(self)@.image.subrange(
                    table_offset(old(self)@.files) as int,
                    table_offset(old(self)@.files) + RECORD_SIZE * old(self)@.files.len(),
                ) == records(final(self)@.files)
            },
    {
        match self.mode {
            OpenMode::Write => {},
            _ => {
                return Err(ArchiveError::InvalidInput);
            },
        }
        if !self.offsets_fit() {
            return Err(ArchiveError::InvalidInput);
        }
        let ghost orig = models(self.files@);
        let n = self.files.len();
        let table = self.write_data();
        let ghost done = models(self.files@);
        assert forall|k: int| 0 <= k < done.len() implies path_bytes(#[trigger] done[k].path).len() <= MAX_PATH_BYTES by {
            assert(writable_entry(old(self).files@[k]@));
            assert(orig[k] == old(self).files@[k]@);
            assert(done[k].path == orig[k].path);
        }
        self.write_footer();
        let ghost body = payloads(orig) + records(done);
        assert(self.image@ =~= header_bytes(0, 0) + body);
        self.file_count = n as u32;
        self.offset = table;
        let count_bytes = u32_to_le_bytes(self.file_count);
        let table_bytes = u32_to_le_bytes(self.offset);
        proof {
            lemma_le32_round_trip(0);
            lemma_le32_round_trip(11);
            lemma_le32_round_trip(n as u32);
            lemma_le32_round_trip(table);
        }
        patch_bytes(&mut self.image, COUNT_OFFSET, count_bytes.as_slice());
        patch_bytes(&mut self.image, TABLE_OFFSET_OFFSET, table_bytes.as_slice());
        assert(self.image@ =~= header_bytes(n as u32, table) + body);
        proof {
            lemma_payloads_placed(orig);
            lemma_payloads_len(orig);
            lemma_payloads_len(done);
            assert(table_offset(done) == table_offset(orig));
            lemma_header_consistency(done);
            assert(done.len() == orig.len());
            assert(self.image@ == archive_bytes(done));
            assert(header_count(self.image@) == orig.len());
            assert(header_table(self.image@) == table_offset(orig));
            assert(self.image@.len() == table_offset(orig) + RECORD_SIZE * orig.len());
        }
        self.mode = OpenMode::Finalized;
        Ok(())
    }

    /// Reads the record at byte `at` of `data`: `InvalidFormat` for a path
    /// field without terminator, `None` for a tombstone,
    /// else the entry with its payload region copied out of `data`.
    fn read_record(data: &[u8], at: usize) -> (r: Result<Option<EtFile>, ArchiveError>)
        requires
            at + RECORD_SIZE <= data@.len(),
        ensures
            r matches Ok(Some(f)) ==> record_result(data@, data@.subrange(at as int, at + RECORD_SIZE)) == Ok::<Option<EntryModel>, ArchiveError>(Some(f@)),
            r matches Ok(None) ==> record_result(data@, data@.subrange(at as int, at + RECORD_SIZE)) == Ok::<Option<EntryModel>, ArchiveError>(None),
            r matches Err(e) ==> record_result(data@, data@.subrange(at as int, at + RECORD_SIZE)) == Err::<Option<EntryModel>, ArchiveError>(e),
    {
        let ghost rec = data@.subrange(at as int, at + RECORD_SIZE);
        let _len = data.len();
        assert(rec.subrange(256, 260) =~= data@.subrange(at + 256, at + 260));
        assert(rec.subrange(260, 264) =~= data@.subrange(at + 260, at + 264));
        assert(rec.subrange(264, 268) =~= data@.subrange(at + 264, at + 268));
        assert(rec.subrange(268, 272) =~= data@.subrange(at + 268, at + 272));
        // The path ends at the first zero byte of its field.
        let ghost field = rec.subrange(0, PATH_FIELD_SIZE as int);
        let mut end: usize = 0;
        while end < PATH_FIELD_SIZE && data[at + end] != 0
            invariant
                at + RECORD_SIZE <= data@.len(),
                field == data@.subrange(at as int, at + PATH_FIELD_SIZE),
                end <= PATH_FIELD_SIZE,
                data@.len() <= usize::MAX,
                forall|j: int| 0 <= j < end ==> field[j] != 0,
            decreases PATH_FIELD_SIZE - end,
        {
            end = end + 1;
        }
        proof {
            lemma_first_zero_scan(field, 0, end as int);
        }
        if end == PATH_FIELD_SIZE {
            return Err(ArchiveError::InvalidFormat);
        }
        let comp_size = read_le32(data, at + 256);
        let file_size = read_le32(data, at + 260);
        if comp_size == 0 && file_size == 0 {
            return Ok(None);
        }
        let alloc_size = read_le32(data, at + 264);
        let data_offset = read_le32(data, at + 268);
        if data_offset as u64 + alloc_size as u64 > data.len() as u64 {
            return Err(ArchiveError::IOFailure);
        }
        let name = slice_subrange(data, at, at + end);
        assert(name@ =~= rec.subrange(0, end as int));
        let path = decode_lossy(name);
        let payload = slice_subrange(data, data_offset as usize, data_offset as usize + alloc_size as usize);
        let comp_data = slice_to_vec(payload);
        Ok(Some(EtFile { path, comp_data, file_size, comp_size, data_offset, alloc_size }))
    }

    /// Reads an archive from its bytes `data`: checks the header (its size
    /// and signature) and that the table lies within `data`, then walks
    /// exactly as many table slots as the header counts, one record width
    /// each, skipping tombstones and reading each live entry's payload region
    /// by its offset. Fails exactly as `parse_archive` says.
    pub fn read(file_name: &str, data: &[u8]) -> (r: Result<Self, ArchiveError>)
        ensures
            r is Ok <==> parse_archive(data@) is Ok,
            r matches Err(e) ==> parse_archive(data@) == Err::<Seq<EntryModel>, ArchiveError>(e),
            r matches Ok(fs) ==> {
                &&& fs.wf()
                &&& parse_archive(data@) == Ok::<Seq<EntryModel>, ArchiveError>(fs@.files)
                &&& fs@.mode == OpenMode::Read
                &&& fs@.image == Seq::<u8>::empty()
                &&& fs@.file_count == header_count(data@)
                &&& fs@.offset == header_table(data@)
                &&& fs.name() == file_name@
            },
    {
        let len = data.len();
        if len < HEADER_SIZE || !has_magic(data) {
            return Err(ArchiveError::InvalidFormat);
        }
        let file_count = read_le32(data, COUNT_OFFSET);
        let offset = read_le32(data, TABLE_OFFSET_OFFSET);
        if offset as u64 + file_count as u64 * RECORD_SIZE as u64 > len as u64 {
            return Err(ArchiveError::InvalidFormat);
        }
        let ghost table = offset as int;
        let mut files: Vec<EtFile> = Vec::new();
        assert(models(files@) =~= Seq::<EntryModel>::empty());
        let mut k: u32 = 0;
        while k < file_count
            invariant
                len == data@.len(),
                len >= HEADER_SIZE,
                data@.subrange(0, 32) == magic(),
                table == offset,
                file_count == header_count(data@),
                offset == header_table(data@),
                offset + file_count * RECORD_SIZE <= len,
                k <= file_count,
                parse_slots(data@, table, k as nat) == Ok::<Seq<EntryModel>, ArchiveError>(models(files@)),
            decreases file_count - k,
        {
            proof {
                assert(k * RECORD_SIZE + RECORD_SIZE <= file_count * RECORD_SIZE) by (nonlinear_arith)
                    requires k < file_count;
            }
            let at = offset as usize + k as usize * RECORD_SIZE;
            let rec = Self::read_record(data, at);
            assert(slot_record(data@, table, k as int) =~= data@.subrange(at as int, at + RECORD_SIZE));
            match rec {
                Err(e) => {
                    proof {
                        assert(parse_slots(data@, table, (k + 1) as nat) == Err::<Seq<EntryModel>, ArchiveError>(e));
                        lemma_parse_slots_err(data@, table, (k + 1) as nat, file_count as nat);
                        assert(parse_archive(data@) == parse_slots(data@, table, file_count as nat));
                    }
                    return Err(e);
                },
                Ok(None) => {},
                Ok(Some(f)) => {
                    let ghost before = files@;
                    files.push(f);
                    assert(models(files@) =~= models(before).push(f@));
                },
            }
            k = k + 1;
        }
        Ok(EtFileSystem {
            mode: OpenMode::Read,
            file_name: file_name.to_owned(),
            file_count,
            offset,
            files,
            image: Vec::new(),
        })
    }

    /// Every entry whose stored path contains `name` (case-sensitive), in
    /// entry order.
    pub fn find_files(&self, name: &str) -> (r: Vec<&EtFile>)
        ensures
            ref_models(r@) == matching(self@.files, name@),
    {
        let ghost all = models(self.files@);
        let mut r: Vec<&EtFile> = Vec::new();
        let mut i: usize = 0;
        while i < self.files.len()
            invariant
                all == models(self.files@),
                i <= all.len(),
                ref_models(r@) == matching(all.subrange(0, i as int), name@),
            decreases all.len() - i,
        {
            let f = &self.files[i];
            let ghost before = r@;
            assert(all.subrange(0, i + 1).drop_last() =~= all.subrange(0, i as int));
            assert(all[i as int] == f@);
            if contains_str(f.path.as_str(), name) {
                r.push(f);
                assert(ref_models(r@) =~= ref_models(before).push(f@));
            }
            i = i + 1;
        }
        assert(all.subrange(0, i as int) =~= all);
        r
    }

    /// All entries, in order: as added for a writer, the live ones in table
    /// order for a reader.
    pub fn get_files(&self) -> (r: Vec<&EtFile>)
        ensures
            ref_models(r@) == self@.files,
    {
        let mut r: Vec<&EtFile> = Vec::new();
        let mut i: usize = 0;
        while i < self.files.len()
            invariant
                i <= self.files@.len(),
                ref_models(r@) == models(self.files@).subrange(0, i as int),
            decreases self.files@.len() - i,
        {
            let ghost before = r@;
            let f = &self.files[i];
            assert(f@ == models(self.files@)[i as int]);
            r.push(f);
            assert(ref_models(r@) =~= ref_models(before).push(f@));
            i = i + 1;
            assert(ref_models(r@) =~= models(self.files@).subrange(0, i as int));
        }
        assert(models(self.files@).subrange(0, i as int) =~= models(self.files@));
        r
    }

    /// The archive bytes laid out so far: the provisional header for an open
    /// writer, the whole archive once finalized, nothing for a reader.
    pub fn image(&self) -> (r: &Vec<u8>)
        ensures
            r@ == self@.image,
    {
        &self.image
    }

    /// The name the handle was opened with.
    pub fn file_name(&self) -> (r: &str)
        ensures
            r@ == self.name(),
    {
        self.file_name.as_str()
    }

    /// The handle's mode.
    pub fn mode(&self) -> (r: OpenMode)
        ensures
            r == self@.mode,
    {
        self.mode
    }

    /// The entry count in the header: as read, or as written at finalize.
    pub fn file_count(&self) -> (r: u32)
        ensures
            r == self@.file_count,
    {
        self.file_count
    }

    /// The table offset in the header: as read, or as written at finalize.
    pub fn offset(&self) -> (r: u32)
        ensures
            r == self@.offset,
    {
        self.offset
    }
}

} // verus!
