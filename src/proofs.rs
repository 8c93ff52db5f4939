//! Facts about the archive layout that tie the writer and the reader
//! together.

use vstd::prelude::*;

use vstd::utf8::{encode_utf8_decode_utf8, encode_utf8_valid_utf8};

use crate::error::ArchiveError;
use crate::etfile::{entry_record, lemma_entry_record_len, path_bytes, EntryModel};
use crate::etfilesystem::{
    archive_bytes, fits_u32, header_count, header_table, lemma_payloads_len, lemma_records_len,
    lemma_payload_total_prefix, lemma_payloads_placed, parse_archive, parse_slots, payload_start,
    payload_total, payloads, placed, record_entry, record_is_tombstone, record_result, records,
    slot_record, table_offset, writable_entry,
};
use crate::layout::{
    header_bytes, le32, le32_at, lemma_first_zero_scan, lemma_le32_round_trip,
    magic, path_field, HEADER_SIZE, MAX_PATH_BYTES, PATH_FIELD_SIZE, RECORD_SIZE,
};

verus! {

/// The header's fields sit where the format puts them.
pub proof fn lemma_header_fields(count: u32, table: u32)
    ensures
        header_bytes(count, table).len() == HEADER_SIZE,
        header_bytes(count, table).subrange(0, 32) == magic(),
        le32_at(header_bytes(count, table), 260) == count,
        le32_at(header_bytes(count, table), 264) == table,
{
    lemma_le32_round_trip(11);
    lemma_le32_round_trip(count);
    lemma_le32_round_trip(table);
    lemma_le32_round_trip(0);
    let h = header_bytes(count, table);
    assert(h.subrange(0, 32) =~= magic());
    assert(h.subrange(260, 264) =~= le32(count));
    assert(h.subrange(264, 268) =~= le32(table));
}

/// Header consistency: in a finished archive, the count at byte 260 is the
/// number of entries written, the offset at byte 264 is where the table
/// actually begins, and the table that starts there holds one record per
/// entry.
pub proof fn lemma_header_consistency(es: Seq<EntryModel>)
    requires
        fits_u32(es),
        forall|i: int| 0 <= i < es.len() ==> path_bytes(#[trigger] es[i].path).len() <= MAX_PATH_BYTES,
    ensures
        header_count(archive_bytes(es)) == es.len(),
        header_table(archive_bytes(es)) == table_offset(es),
        archive_bytes(es).subrange(
            table_offset(es) as int,
            table_offset(es) + RECORD_SIZE * es.len(),
        ) == records(es),
        archive_bytes(es).len() == table_offset(es) + RECORD_SIZE * es.len(),
{
    let h = header_bytes(es.len() as u32, table_offset(es) as u32);
    let b = archive_bytes(es);
    lemma_header_fields(es.len() as u32, table_offset(es) as u32);
    lemma_payloads_len(es);
    lemma_records_len(es);
    assert(b.subrange(260, 264) =~= h.subrange(260, 264));
    assert(b.subrange(264, 268) =~= h.subrange(264, 268));
    assert(b.subrange(table_offset(es) as int, table_offset(es) + RECORD_SIZE * es.len())
        =~= records(es));
}

/// An `Ok` of the first `n` slots means every shorter prefix was `Ok`.
pub proof fn lemma_parse_slots_prefix_ok(b: Seq<u8>, table: int, n: nat, m: nat)
    requires
        m <= n,
        parse_slots(b, table, n) is Ok,
    ensures
        parse_slots(b, table, m) is Ok,
    decreases n,
{
    if m < n {
        lemma_parse_slots_prefix_ok(b, table, (n - 1) as nat, m);
    }
}

/// With one tombstone at slot `k` and every other slot live, the first `n`
/// slots give one entry per live slot, in slot order.
pub proof fn lemma_slots_one_tombstone(b: Seq<u8>, table: int, n: nat, k: int)
    requires
        parse_slots(b, table, n) is Ok,
        0 <= k,
        record_is_tombstone(slot_record(b, table, k)),
        forall|j: int| 0 <= j < n && j != k ==> !record_is_tombstone(#[trigger] slot_record(b, table, j)),
    ensures
        parse_slots(b, table, n)->Ok_0.len() == if n <= k { n as int } else { n - 1 },
        forall|j: int|
            0 <= j < parse_slots(b, table, n)->Ok_0.len() ==> #[trigger] parse_slots(b, table, n)->Ok_0[j]
                == record_entry(b, slot_record(b, table, if j < k { j } else { j + 1 })),
    decreases n,
{
    if n > 0 {
        let prev = (n - 1) as nat;
        lemma_parse_slots_prefix_ok(b, table, n, prev);
        lemma_slots_one_tombstone(b, table, prev, k);
        let r = slot_record(b, table, n - 1);
        if n - 1 != k {
            assert(!record_is_tombstone(r));
        }
    }
}

/// Tombstone skip: an archive whose table holds a tombstone at slot `k` and
/// live records everywhere else reads as one entry fewer than its count, and
/// the entry after the tombstone is read from the very next record slot.
pub proof fn lemma_tombstone_skip(b: Seq<u8>, k: int)
    requires
        parse_archive(b) is Ok,
        0 <= k < header_count(b),
        record_is_tombstone(slot_record(b, header_table(b) as int, k)),
        forall|j: int|
            0 <= j < header_count(b) && j != k ==> !record_is_tombstone(
                #[trigger] slot_record(b, header_table(b) as int, j),
            ),
    ensures
        parse_archive(b)->Ok_0.len() == header_count(b) - 1,
        k + 1 < header_count(b) ==> parse_archive(b)->Ok_0[k] == record_entry(
            b,
            slot_record(b, header_table(b) as int, k + 1),
        ),
{
    lemma_slots_one_tombstone(b, header_table(b) as int, header_count(b) as nat, k);
}

/// Entry `i`'s payload sits in the back-to-back payloads right after those
/// of the entries before it.
pub proof fn lemma_payload_slice(es: Seq<EntryModel>, i: int)
    requires
        0 <= i < es.len(),
    ensures
        payload_total(es.subrange(0, i)) + es[i].payload.len() <= payloads(es).len(),
        payloads(es).subrange(
            payload_total(es.subrange(0, i)) as int,
            (payload_total(es.subrange(0, i)) + es[i].payload.len()) as int,
        ) == es[i].payload,
    decreases es.len(),
{
    let q = es.drop_last();
    lemma_payloads_len(q);
    lemma_payloads_len(es);
    if i == es.len() - 1 {
        assert(es.subrange(0, i) =~= q);
        assert(payloads(es).subrange(
            payload_total(es.subrange(0, i)) as int,
            (payload_total(es.subrange(0, i)) + es[i].payload.len()) as int,
        ) =~= es[i].payload);
    } else {
        lemma_payload_slice(q, i);
        assert(q.subrange(0, i) =~= es.subrange(0, i));
        assert(payloads(es).subrange(
            payload_total(es.subrange(0, i)) as int,
            (payload_total(es.subrange(0, i)) + es[i].payload.len()) as int,
        ) =~= payloads(q).subrange(
            payload_total(q.subrange(0, i)) as int,
            (payload_total(q.subrange(0, i)) + q[i].payload.len()) as int,
        ));
    }
}

/// Record `i` of the table is entry `i`'s record.
pub proof fn lemma_record_slice(es: Seq<EntryModel>, i: int)
    requires
        0 <= i < es.len(),
        forall|j: int| 0 <= j < es.len() ==> path_bytes(#[trigger] es[j].path).len() <= MAX_PATH_BYTES,
    ensures
        records(es).subrange(RECORD_SIZE * i, RECORD_SIZE * (i + 1)) == entry_record(es[i]),
    decreases es.len(),
{
    let q = es.drop_last();
    lemma_records_len(q);
    lemma_records_len(es);
    lemma_entry_record_len(es[i]);
    if i == es.len() - 1 {
        assert(records(es).subrange(RECORD_SIZE * i, RECORD_SIZE * (i + 1)) =~= entry_record(es[i]));
    } else {
        lemma_record_slice(q, i);
        assert(records(es).subrange(RECORD_SIZE * i, RECORD_SIZE * (i + 1)) =~= records(q).subrange(
            RECORD_SIZE * i,
            RECORD_SIZE * (i + 1),
        ));
    }
}

/// What the round trip asks of one entry: the writer could encode it, its
/// path holds no zero byte, and it is live.
pub open spec fn round_trip_entry(e: EntryModel) -> bool {
    &&& writable_entry(e)
    &&& forall|j: int| 0 <= j < path_bytes(e.path).len() ==> #[trigger] path_bytes(e.path)[j] != 0
    &&& (e.comp_size != 0 || e.raw_size != 0)
}

/// A record the writer made reads back as the entry it was made from, given
/// the archive holds that entry's payload at its offset.
pub proof fn lemma_record_reads_back(b: Seq<u8>, e: EntryModel)
    requires
        round_trip_entry(e),
        e.data_offset + e.alloc_size <= b.len(),
        b.subrange(e.data_offset as int, e.data_offset + e.alloc_size) == e.payload,
    ensures
        record_result(b, entry_record(e)) == Ok::<Option<EntryModel>, ArchiveError>(Some(e)),
{
    let r = entry_record(e);
    let p = path_bytes(e.path);
    lemma_entry_record_len(e);
    lemma_le32_round_trip(e.comp_size);
    lemma_le32_round_trip(e.raw_size);
    lemma_le32_round_trip(e.alloc_size);
    lemma_le32_round_trip(e.data_offset);
    assert(r.subrange(256, 260) =~= le32(e.comp_size));
    assert(r.subrange(260, 264) =~= le32(e.raw_size));
    assert(r.subrange(264, 268) =~= le32(e.alloc_size));
    assert(r.subrange(268, 272) =~= le32(e.data_offset));
    let f = r.subrange(0, PATH_FIELD_SIZE as int);
    assert(f =~= path_field(p));
    assert forall|j: int| 0 <= j < p.len() implies f[j] != 0 by {
        assert(f[j] == p[j]);
    }
    lemma_first_zero_scan(f, 0, p.len() as int);
    assert(r.subrange(0, p.len() as int) =~= p);
    encode_utf8_valid_utf8(e.path);
    encode_utf8_decode_utf8(e.path);
}

/// Round trip: the archive that `close_file_system` lays out for entries
/// `es` (that is `archive_bytes(placed(es))`) reads back, through `read`, as
/// exactly those entries in order, each at its payload offset, with the
/// same paths, sizes and payload bytes. (That each payload then inflates
/// back to its source is the contract of `get_decompressed_data`.)
pub proof fn lemma_round_trip(es: Seq<EntryModel>)
    requires
        fits_u32(es),
        forall|i: int| 0 <= i < es.len() ==> round_trip_entry(#[trigger] es[i]),
    ensures
        parse_archive(archive_bytes(placed(es))) == Ok::<Seq<EntryModel>, ArchiveError>(placed(es)),
{
    let ps = placed(es);
    let b = archive_bytes(ps);
    lemma_payloads_placed(es);
    lemma_payloads_len(es);
    lemma_payloads_len(ps);
    assert forall|i: int| 0 <= i < ps.len() implies path_bytes(#[trigger] ps[i].path).len()
        <= MAX_PATH_BYTES by {
        assert(round_trip_entry(es[i]));
    }
    assert(fits_u32(ps));
    lemma_header_consistency(ps);
    lemma_header_fields(ps.len() as u32, table_offset(ps) as u32);
    let h = header_bytes(ps.len() as u32, table_offset(ps) as u32);
    assert(b.subrange(0, 32) =~= h.subrange(0, 32));
    let table = table_offset(ps) as int;
    assert forall|n: nat| n <= ps.len() implies parse_slots(b, table, n)
        == Ok::<Seq<EntryModel>, ArchiveError>(ps.subrange(0, n as int)) by {
        lemma_round_trip_slots(es, n);
    }
    assert(ps.subrange(0, ps.len() as int) =~= ps);
}

/// The first `n` slots of the archive of `es` read back as the first `n`
/// placed entries.
pub proof fn lemma_round_trip_slots(es: Seq<EntryModel>, n: nat)
    requires
        fits_u32(es),
        forall|i: int| 0 <= i < es.len() ==> round_trip_entry(#[trigger] es[i]),
        n <= es.len(),
    ensures
        parse_slots(archive_bytes(placed(es)), table_offset(placed(es)) as int, n) == Ok::<
            Seq<EntryModel>,
            ArchiveError,
        >(placed(es).subrange(0, n as int)),
    decreases n,
{
    let ps = placed(es);
    let b = archive_bytes(ps);
    let table = table_offset(ps) as int;
    if n == 0 {
        assert(ps.subrange(0, 0) =~= Seq::<EntryModel>::empty());
    } else {
        let i = n - 1;
        lemma_round_trip_slots(es, (n - 1) as nat);
        lemma_payloads_placed(es);
        lemma_payloads_len(es);
        lemma_payloads_len(ps);
        assert forall|j: int| 0 <= j < ps.len() implies path_bytes(#[trigger] ps[j].path).len()
            <= MAX_PATH_BYTES by {
            assert(round_trip_entry(es[j]));
        }
        lemma_header_consistency(ps);
        lemma_header_fields(ps.len() as u32, table_offset(ps) as u32);
        // The slot holds entry i's record.
        lemma_records_len(ps);
        lemma_record_slice(ps, i);
        assert(slot_record(b, table, i) =~= records(ps).subrange(RECORD_SIZE * i, RECORD_SIZE * (i + 1)));
        // The payload region holds entry i's payload.
        lemma_payload_slice(es, i);
        lemma_payload_total_prefix(es, i + 1, es.len() as int);
        assert(es.subrange(0, es.len() as int) =~= es);
        assert(es.subrange(0, i + 1).drop_last() =~= es.subrange(0, i));
        let start = payload_start(es, i);
        assert(ps[i].data_offset == start);
        assert(b.subrange(start as int, start + ps[i].alloc_size) =~= payloads(es).subrange(
            start - HEADER_SIZE,
            start - HEADER_SIZE + es[i].payload.len(),
        ));
        assert(round_trip_entry(ps[i])) by {
            assert(round_trip_entry(es[i]));
        }
        lemma_record_reads_back(b, ps[i]);
        assert(ps.subrange(0, n as int) =~= ps.subrange(0, i).push(ps[i]));
    }
}

} // verus!
