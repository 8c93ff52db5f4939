//! Byte layout of the archive: header, metadata records, and the helpers
//! that build and read them.

use vstd::bytes::{spec_u32_from_le_bytes, spec_u32_to_le_bytes, u32_from_le_bytes, u32_to_le_bytes};
use vstd::prelude::*;
use vstd::slice::slice_subrange;

verus! {

/// Size of the fixed header; the payload region starts right after it.
pub const HEADER_SIZE: usize = 1024;

/// Size of one metadata record in the table.
pub const RECORD_SIZE: usize = 316;

/// Size of the null-padded path field at the start of a record.
pub const PATH_FIELD_SIZE: usize = 256;

/// Longest encoded path that still leaves room for its terminator.
pub const MAX_PATH_BYTES: usize = 255;

/// The format version stored at offset 256 of the header.
pub const FORMAT_VERSION: u32 = 11;

/// Offset of the entry count in the header; the table offset follows it.
pub const COUNT_OFFSET: usize = 260;

/// Offset of the table offset in the header.
pub const TABLE_OFFSET_OFFSET: usize = 264;

/// The 32-byte signature "EyedentityGames Packing File 0.1".
pub open spec fn magic() -> Seq<u8> {
    seq![
        69u8, 121, 101, 100, 101, 110, 116, 105, 116, 121, 71, 97, 109, 101, 115, 32,
        80, 97, 99, 107, 105, 110, 103, 32, 70, 105, 108, 101, 32, 48, 46, 49,
    ]
}

pub open spec fn zeros(n: nat) -> Seq<u8> {
    Seq::new(n, |i: int| 0u8)
}

pub open spec fn le32(x: u32) -> Seq<u8> {
    spec_u32_to_le_bytes(x)
}

/// The little-endian 32-bit value stored at byte `at` of `b`.
pub open spec fn le32_at(b: Seq<u8>, at: int) -> u32 {
    spec_u32_from_le_bytes(b.subrange(at, at + 4))
}

/// The 1024-byte header for `count` records and a table at `table`.
pub open spec fn header_bytes(count: u32, table: u32) -> Seq<u8> {
    magic() + zeros(224) + le32(FORMAT_VERSION) + le32(count) + le32(table) + le32(0)
        + zeros(752)
}

/// A path of at most 255 bytes, null-padded to the 256-byte field.
pub open spec fn path_field(path: Seq<u8>) -> Seq<u8> {
    path + zeros((PATH_FIELD_SIZE - path.len()) as nat)
}

/// The 316-byte metadata record of one entry.
pub open spec fn record_bytes(path: Seq<u8>, comp_size: u32, raw_size: u32, alloc_size: u32, data_offset: u32) -> Seq<u8> {
    path_field(path) + le32(comp_size) + le32(raw_size) + le32(alloc_size) + le32(data_offset)
        + zeros(44)
}

/// Index of the first zero byte of `f` at or after `i`, or `f.len()` if none.
pub open spec fn first_zero_from(f: Seq<u8>, i: int) -> int
    decreases f.len() - i,
{
    if i < 0 || i >= f.len() {
        f.len() as int
    } else if f[i] == 0 {
        i
    } else {
        first_zero_from(f, i + 1)
    }
}

pub proof fn lemma_le32_round_trip(x: u32)
    ensures
        le32(x).len() == 4,
        spec_u32_from_le_bytes(le32(x)) == x,
{
    vstd::bytes::lemma_auto_spec_u32_to_from_le_bytes();
    assert(spec_u32_to_le_bytes(x).len() == 4);
}

pub proof fn lemma_first_zero_scan(f: Seq<u8>, k: int, i: int)
    requires
        0 <= k <= i <= f.len(),
        forall|j: int| k <= j < i ==> f[j] != 0,
        i == f.len() || f[i] == 0,
    ensures
        first_zero_from(f, k) == i,
    decreases i - k,
{
    if k < i {
        lemma_first_zero_scan(f, k + 1, i);
    }
}

/// Appends every byte of `src` to `dst`.
pub fn append_bytes(dst: &mut Vec<u8>, src: &[u8])
    ensures
        final(dst)@ == old(dst)@ + src@,
{
    let mut i: usize = 0;
    while i < src.len()
        invariant
            i <= src@.len(),
            dst@ == old(dst)@ + src@.subrange(0, i as int),
        decreases src@.len() - i,
    {
        dst.push(src[i]);
        i = i + 1;
        assert(dst@ =~= old(dst)@ + src@.subrange(0, i as int));
    }
    assert(src@.subrange(0, i as int) =~= src@);
}

/// Appends `n` zero bytes to `dst`.
pub fn append_zeros(dst: &mut Vec<u8>, n: usize)
    ensures
        final(dst)@ == old(dst)@ + zeros(n as nat),
{
    let mut i: usize = 0;
    while i < n
        invariant
            i <= n,
            dst@ == old(dst)@ + zeros(i as nat),
        decreases n - i,
    {
        dst.push(0u8);
        i = i + 1;
        assert(dst@ =~= old(dst)@ + zeros(i as nat));
    }
}

/// Appends the little-endian bytes of `x` to `dst`.
pub fn append_le32(dst: &mut Vec<u8>, x: u32)
    ensures
        final(dst)@ == old(dst)@ + le32(x),
{
    let b = u32_to_le_bytes(x);
    append_bytes(dst, b.as_slice());
}

/// Overwrites the bytes of `dst` from `at` on with `src`.
pub fn patch_bytes(dst: &mut Vec<u8>, at: usize, src: &[u8])
    requires
        at + src@.len() <= old(dst)@.len(),
    ensures
        final(dst)@ == old(dst)@.subrange(0, at as int) + src@ + old(dst)@.subrange(
            at + src@.len(),
            old(dst)@.len() as int,
        ),
{
    let _len = dst.len();
    let mut i: usize = 0;
    while i < src.len()
        invariant
            at + src@.len() <= old(dst)@.len(),
            old(dst)@.len() <= usize::MAX,
            i <= src@.len(),
            dst@.len() == old(dst)@.len(),
            forall|j: int|
                0 <= j < dst@.len() ==> #[trigger] dst@[j] == if at <= j < at + i {
                    src@[j - at]
                } else {
                    old(dst)@[j]
                },
        decreases src@.len() - i,
    {
        dst.set(at + i, src[i]);
        i = i + 1;
    }
    assert(dst@ =~= old(dst)@.subrange(0, at as int) + src@ + old(dst)@.subrange(
        at + src@.len(),
        old(dst)@.len() as int,
    ));
}

/// Reads the little-endian 32-bit value at byte `at` of `data`.
pub fn read_le32(data: &[u8], at: usize) -> (r: u32)
    requires
        at + 4 <= data@.len(),
    ensures
        r == le32_at(data@, at as int),
{
    let _n = data.len();
    u32_from_le_bytes(slice_subrange(data, at, at + 4))
}

/// The magic signature's bytes.
pub fn magic_bytes() -> (r: Vec<u8>)
    ensures
        r@ == magic(),
{
    let r: Vec<u8> = vec![
        69u8, 121, 101, 100, 101, 110, 116, 105, 116, 121, 71, 97, 109, 101, 115, 32,
        80, 97, 99, 107, 105, 110, 103, 32, 70, 105, 108, 101, 32, 48, 46, 49,
    ];
    assert(r@ =~= magic());
    r
}

/// The header for `count` records and a table at `table`.
pub fn encode_header(count: u32, table: u32) -> (r: Vec<u8>)
    ensures
        r@ == header_bytes(count, table),
        r@.len() == HEADER_SIZE,
{
    let mut r = magic_bytes();
    append_zeros(&mut r, 224);
    append_le32(&mut r, FORMAT_VERSION);
    append_le32(&mut r, count);
    append_le32(&mut r, table);
    append_le32(&mut r, 0);
    append_zeros(&mut r, 752);
    proof {
        lemma_le32_round_trip(FORMAT_VERSION);
        lemma_le32_round_trip(count);
        lemma_le32_round_trip(table);
        lemma_le32_round_trip(0);
    }
    r
}

/// Whether `data` starts with the archive's magic signature.
pub fn has_magic(data: &[u8]) -> (r: bool)
    ensures
        r == (data@.len() >= 32 && data@.subrange(0, 32) == magic()),
{
    if data.len() < 32 {
        return false;
    }
    let expected = magic_bytes();
    let mut i: usize = 0;
    while i < 32
        invariant
            i <= 32,
            data@.len() >= 32,
            expected@ == magic(),
            forall|j: int| 0 <= j < i ==> data@[j] == magic()[j],
        decreases 32 - i,
    {
        if data[i] != expected[i] {
            assert(data@.subrange(0, 32)[i as int] != magic()[i as int]);
            return false;
        }
        i = i + 1;
    }
    assert(data@.subrange(0, 32) =~= magic());
    true
}

} // verus!
