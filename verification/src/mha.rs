//! The MHA archive: a header, the bodies, the names, then one record for each file.

use crate::endian::{
    get_u16_le, get_u32_le, get_u32_le_or_zero, lemma_u16_le_at, lemma_u32_le_at, push_u16_le,
    push_u32_le, u16_le, u16_le_bytes, u32_le, u32_le_bytes, u32_le_or_zero,
};
use crate::path::append_bytes;
use crate::simple_archive::{concat, lemma_concat, lemma_total_len_take, total_len, ArchiveError};
use crate::text::{decimal, push_decimal, string_from_utf8};
use vstd::prelude::*;
use vstd::slice::slice_subrange;
use vstd::utf8::{encode_utf8, valid_utf8};

verus! {

/// The magic number that an MHA buffer begins with.
pub const MHA_MAGIC: u32 = 23160941;

/// The length of the header.
pub const MHA_HEADER_LEN: usize = 24;

/// An entry of an archive: the bytes of its name, and its body.
pub type Entry = (Seq<u8>, Seq<u8>);

/// Whether the buffer begins with the MHA magic number.
pub open spec fn is_mha(buf: Seq<u8>) -> bool {
    u32_le_or_zero(buf, 0) == MHA_MAGIC
}

/// Where the records begin.
pub open spec fn mha_records_at(buf: Seq<u8>) -> int {
    u32_le(buf, 4)
}

/// The number of files.
pub open spec fn mha_count(buf: Seq<u8>) -> int {
    u32_le(buf, 8)
}

/// Where the names begin.
pub open spec fn mha_names_at(buf: Seq<u8>) -> int {
    u32_le(buf, 12)
}

/// The first file id.
pub open spec fn mha_base_id(buf: Seq<u8>) -> int {
    u16_le(buf, 20)
}

/// The capacity that the header declares.
pub open spec fn mha_capacity(buf: Seq<u8>) -> int {
    u16_le(buf, 22)
}

/// The index of the first zero byte at or after `start`, or -1 where there is none.
pub open spec fn first_zero(buf: Seq<u8>, start: int) -> int
    decreases buf.len() - start,
{
    if start < 0 || start >= buf.len() {
        -1
    } else if buf[start] == 0 {
        start
    } else {
        first_zero(buf, start + 1)
    }
}

/// Entry `i` of the archive: its record must lie inside the buffer, its name must
/// end with a zero byte and be valid UTF-8, and its body must lie inside the
/// buffer.
pub open spec fn mha_entry(buf: Seq<u8>, i: int) -> Result<Entry, ArchiveError> {
    let r = mha_records_at(buf) + 20 * i;
    if r + 20 > buf.len() {
        Err(ArchiveError::TruncatedPayload)
    } else {
        let name_at = mha_names_at(buf) + u32_le(buf, r);
        let data_at = u32_le(buf, r + 4);
        let size = u32_le(buf, r + 8);
        let end = first_zero(buf, name_at);
        if end < 0 || !valid_utf8(buf.subrange(name_at, end)) {
            Err(ArchiveError::BadName)
        } else if data_at + size > buf.len() {
            Err(ArchiveError::TruncatedPayload)
        } else {
            Ok((buf.subrange(name_at, end), buf.subrange(data_at, data_at + size)))
        }
    }
}

/// The first `k` entries of the archive, or the error of the first that has one.
pub open spec fn mha_entries(buf: Seq<u8>, k: int) -> Result<Seq<Entry>, ArchiveError>
    decreases k,
{
    if k <= 0 {
        Ok(Seq::empty())
    } else {
        match mha_entries(buf, k - 1) {
            Err(e) => Err(e),
            Ok(done) => match mha_entry(buf, k - 1) {
                Err(e) => Err(e),
                Ok(entry) => Ok(done.push(entry)),
            },
        }
    }
}

/// The name of the entry that carries the header's two numbers: `.metadata`.
pub open spec fn metadata_name() -> Seq<u8> {
    seq![0x2eu8, 0x6du8, 0x65u8, 0x74u8, 0x61u8, 0x64u8, 0x61u8, 0x74u8, 0x61u8]
}

/// The entry that carries the header's two numbers: the first file id and the
/// capacity in decimal, with a comma between them.
pub open spec fn metadata_entry(base_id: int, capacity: int) -> Entry {
    (metadata_name(), decimal(base_id as nat) + seq![0x2cu8] + decimal(capacity as nat))
}

/// What an MHA buffer decodes to: its entries in the order of their records, then
/// the `.metadata` entry.
pub open spec fn mha_decode(buf: Seq<u8>) -> Result<Seq<Entry>, ArchiveError> {
    if buf.len() < 24 || u32_le(buf, 0) != MHA_MAGIC {
        Err(ArchiveError::MalformedHeader)
    } else {
        match mha_entries(buf, mha_count(buf)) {
            Err(e) => Err(e),
            Ok(entries) => Ok(
                entries.push(metadata_entry(mha_base_id(buf), mha_capacity(buf))),
            ),
        }
    }
}

/// The bytes of the name and the body of each entry of a list.
pub open spec fn entry_views(files: Seq<(String, Vec<u8>)>) -> Seq<Entry> {
    Seq::new(files.len(), |i: int| (encode_utf8(files[i].0@), files[i].1@))
}

/// Whether the buffer begins with the MHA magic number.
pub fn is_buf_mha(buf: &[u8]) -> (r: bool)
    ensures
        r == is_mha(buf@),
{
    get_u32_le_or_zero(buf, 0) == MHA_MAGIC
}

/// Finds the zero byte that ends the string at `offset`.
fn find_zero(buf: &[u8], offset: usize) -> (r: Option<usize>)
    ensures
        match r {
            None => first_zero(buf@, offset as int) < 0,
            Some(end) => end as int == first_zero(buf@, offset as int) && offset <= end
                < buf.len(),
        },
{
    let mut i: usize = offset;
    while i < buf.len() && buf[i] != 0
        invariant
            offset <= i,
            first_zero(buf@, offset as int) == first_zero(buf@, i as int),
        decreases buf.len() - i,
    {
        i = i + 1;
    }
    if i < buf.len() {
        Some(i)
    } else {
        None
    }
}

/// Reads the string that begins at `offset` and ends before the next zero byte.
pub fn read_null_terminated_string(buf: &[u8], offset: usize) -> (r: Result<String, ArchiveError>)
    ensures
        match r {
            Err(e) => e == ArchiveError::BadName && (first_zero(buf@, offset as int) < 0
                || !valid_utf8(buf@.subrange(offset as int, first_zero(buf@, offset as int)))),
            Ok(s) => first_zero(buf@, offset as int) >= 0 && encode_utf8(s@) == buf@.subrange(
                offset as int,
                first_zero(buf@, offset as int),
            ) && valid_utf8(encode_utf8(s@)),
        },
{
    match find_zero(buf, offset) {
        None => Err(ArchiveError::BadName),
        Some(end) => match string_from_utf8(slice_subrange(buf, offset, end)) {
            None => Err(ArchiveError::BadName),
            Some(s) => Ok(s),
        },
    }
}

/// Takes an MHA archive apart into its named files, and adds the `.metadata` entry
/// that holds the first file id and the capacity of the header.
pub fn decode_mha_archive(buf: &[u8]) -> (r: Result<Vec<(String, Vec<u8>)>, ArchiveError>)
    ensures
        match mha_decode(buf@) {
            Err(e) => r == Err::<Vec<(String, Vec<u8>)>, ArchiveError>(e),
            Ok(entries) => r is Ok && entry_views(r.unwrap()@) == entries,
        },
{
    if buf.len() < MHA_HEADER_LEN || get_u32_le(buf, 0) != MHA_MAGIC {
        return Err(ArchiveError::MalformedHeader);
    }
    let metadata_addy: u64 = get_u32_le(buf, 4) as u64;
    let file_count: u32 = get_u32_le(buf, 8);
    let string_start: u64 = get_u32_le(buf, 12) as u64;
    let base_id: u16 = get_u16_le(buf, 20);
    let capacity: u16 = get_u16_le(buf, 22);
    let mut out: Vec<(String, Vec<u8>)> = Vec::new();
    let mut i: u32 = 0;
    assert(entry_views(out@) =~= Seq::<Entry>::empty());
    while i < file_count
        invariant
            i <= file_count,
            buf.len() >= 24,
            u32_le(buf@, 0) == MHA_MAGIC,
            metadata_addy == mha_records_at(buf@),
            string_start == mha_names_at(buf@),
            file_count == mha_count(buf@),
            mha_entries(buf@, i as int) == Ok::<Seq<Entry>, ArchiveError>(entry_views(out@)),
        decreases file_count - i,
    {
        proof {
            lemma_entries_error(buf@, i + 1, file_count as int);
        }
        let meta_data_start: u64 = metadata_addy + (i as u64) * 20;
        if meta_data_start + 20 > buf.len() as u64 {
            return Err(ArchiveError::TruncatedPayload);
        }
        let record: usize = meta_data_start as usize;
        let file_name_off: u64 = get_u32_le(buf, record) as u64;
        let file_data_off: usize = get_u32_le(buf, record + 4) as usize;
        let file_size: usize = get_u32_le(buf, record + 8) as usize;
        let name_at: u64 = string_start + file_name_off;
        if name_at > buf.len() as u64 {
            assert(first_zero(buf@, name_at as int) < 0);
            return Err(ArchiveError::BadName);
        }
        let file_name = match read_null_terminated_string(buf, name_at as usize) {
            Err(e) => {
                return Err(e);
            },
            Ok(s) => s,
        };
        if file_data_off > buf.len() || file_size > buf.len() - file_data_off {
            return Err(ArchiveError::TruncatedPayload);
        }
        let file_data = vstd::slice::slice_to_vec(
            slice_subrange(buf, file_data_off, file_data_off + file_size),
        );
        let ghost before = entry_views(out@);
        out.push((file_name, file_data));
        assert(entry_views(out@) =~= before.push(mha_entry(buf@, i as int).unwrap()));
        i = i + 1;
    }
    let mut metadata_filebuf: Vec<u8> = Vec::new();
    push_decimal(&mut metadata_filebuf, base_id as u32);
    metadata_filebuf.push(0x2c);
    push_decimal(&mut metadata_filebuf, capacity as u32);
    let name = metadata_string();
    let ghost before = entry_views(out@);
    out.push((name, metadata_filebuf));
    proof {
        assert(metadata_filebuf@ =~= metadata_entry(base_id as int, capacity as int).1);
        assert(entry_views(out@) =~= before.push(
            metadata_entry(base_id as int, capacity as int),
        ));
    }
    Ok(out)
}

/// An error among the first entries is the error of the whole archive.
proof fn lemma_entries_error(buf: Seq<u8>, i: int, k: int)
    requires
        0 <= i <= k,
    ensures
        mha_entries(buf, i) is Err ==> mha_entries(buf, k) == mha_entries(buf, i),
    decreases k - i,
{
    if i < k {
        lemma_entries_error(buf, i, k - 1);
    }
}

/// The name `.metadata`.
fn metadata_string() -> (r: String)
    ensures
        encode_utf8(r@) == metadata_name(),
{
    let bytes: [u8; 9] = [0x2e, 0x6d, 0x65, 0x74, 0x61, 0x64, 0x61, 0x74, 0x61];
    assert(bytes@ =~= metadata_name());
    proof {
        lemma_metadata_name_valid();
    }
    match string_from_utf8(bytes.as_slice()) {
        Some(s) => s,
        None => String::new(),
    }
}

/// The names of the entries of a decoded archive are valid UTF-8.
pub proof fn lemma_mha_names_valid(buf: Seq<u8>)
    ensures
        mha_decode(buf) matches Ok(entries) ==> forall|k: int|
            0 <= k < entries.len() ==> valid_utf8(#[trigger] entries[k].0),
{
    lemma_metadata_name_valid();
    lemma_entries_names_valid(buf, mha_count(buf));
}

proof fn lemma_entries_names_valid(buf: Seq<u8>, n: int)
    ensures
        mha_entries(buf, n) matches Ok(entries) ==> forall|k: int|
            0 <= k < entries.len() ==> valid_utf8(#[trigger] entries[k].0),
    decreases n,
{
    if n > 0 {
        lemma_entries_names_valid(buf, n - 1);
    }
}

/// The name `.metadata` is valid UTF-8.
proof fn lemma_metadata_name_valid()
    ensures
        valid_utf8(metadata_name()),
{
    let s = ".metadata";
    reveal_strlit(".metadata");
    vstd::utf8::is_ascii_chars_encode_utf8(s@);
    vstd::utf8::encode_utf8_valid_utf8(s@);
    assert(encode_utf8(s@) =~= metadata_name());
}

/// The bodies of the entries.
pub open spec fn bodies_of(files: Seq<Entry>) -> Seq<Seq<u8>> {
    Seq::new(files.len(), |i: int| files[i].1)
}

/// The names of the entries, each with the zero byte that ends it.
pub open spec fn names_of(files: Seq<Entry>) -> Seq<Seq<u8>> {
    Seq::new(files.len(), |i: int| files[i].0 + seq![0u8])
}

/// The record of entry `i`: where its name begins among the names, where its body
/// begins in the buffer, its size twice, and its file id.
pub open spec fn mha_record(files: Seq<Entry>, base_id: u16, i: int) -> Seq<u8> {
    u32_le_bytes(total_len(names_of(files).take(i)) as u32) + u32_le_bytes(
        (24 + total_len(bodies_of(files).take(i))) as u32,
    ) + u32_le_bytes(files[i].1.len() as u32) + u32_le_bytes(files[i].1.len() as u32)
        + u32_le_bytes((base_id + i) as u32)
}

/// The records of the first `k` entries.
pub open spec fn mha_records(files: Seq<Entry>, base_id: u16, k: int) -> Seq<u8>
    decreases k,
{
    if k <= 0 {
        Seq::empty()
    } else {
        mha_records(files, base_id, k - 1) + mha_record(files, base_id, k - 1)
    }
}

/// The header of the archive of `files`.
pub open spec fn mha_header(files: Seq<Entry>, base_id: u16, capacity: u16) -> Seq<u8> {
    let bodies = total_len(bodies_of(files));
    let names = total_len(names_of(files));
    u32_le_bytes(MHA_MAGIC) + u32_le_bytes((24 + bodies + names) as u32) + u32_le_bytes(
        files.len() as u32,
    ) + u32_le_bytes((24 + bodies) as u32) + u32_le_bytes(names as u32) + u16_le_bytes(base_id)
        + u16_le_bytes(capacity)
}

/// The MHA archive of `files`.
pub open spec fn mha_encode(files: Seq<Entry>, base_id: u16, capacity: u16) -> Seq<u8> {
    mha_header(files, base_id, capacity) + concat(bodies_of(files)) + concat(names_of(files))
        + mha_records(files, base_id, files.len() as int)
}

/// The length of the archive of `files`.
pub open spec fn mha_len(files: Seq<Entry>) -> int {
    24 + total_len(bodies_of(files)) + total_len(names_of(files)) + 20 * files.len()
}

/// The names can be written and read back: none holds a zero byte, and each is
/// valid UTF-8.
pub open spec fn names_ok(files: Seq<Entry>) -> bool {
    forall|i: int|
        0 <= i < files.len() ==> valid_utf8(#[trigger] files[i].0) && forall|t: int|
            0 <= t < files[i].0.len() ==> files[i].0[t] != 0
}

proof fn lemma_mha_records(files: Seq<Entry>, base_id: u16, k: int, i: int)
    requires
        0 <= i < k <= files.len(),
    ensures
        mha_records(files, base_id, k).len() == 20 * k,
        mha_records(files, base_id, k).subrange(20 * i, 20 * i + 20) == mha_record(
            files,
            base_id,
            i,
        ),
    decreases k,
{
    lemma_mha_records_len(files, base_id, k);
    lemma_mha_records_len(files, base_id, k - 1);
    let r = mha_records(files, base_id, k);
    let front = mha_records(files, base_id, k - 1);
    if i == k - 1 {
        assert(r.subrange(20 * i, 20 * i + 20) =~= mha_record(files, base_id, i));
    } else {
        lemma_mha_records(files, base_id, k - 1, i);
        assert(r.subrange(20 * i, 20 * i + 20) =~= front.subrange(20 * i, 20 * i + 20));
    }
}

proof fn lemma_mha_records_len(files: Seq<Entry>, base_id: u16, k: int)
    requires
        0 <= k,
    ensures
        mha_records(files, base_id, k).len() == 20 * k,
    decreases k,
{
    if k > 0 {
        lemma_mha_records_len(files, base_id, k - 1);
    }
}

/// A string without a zero byte that is followed by one ends at that byte.
proof fn lemma_first_zero(buf: Seq<u8>, start: int, name: Seq<u8>)
    requires
        0 <= start,
        start + name.len() < buf.len(),
        buf.subrange(start, start + name.len() + 1) == name + seq![0u8],
        forall|t: int| 0 <= t < name.len() ==> name[t] != 0,
    ensures
        first_zero(buf, start) == start + name.len(),
    decreases name.len(),
{
    let part = buf.subrange(start, start + name.len() + 1);
    assert(part[0] == buf[start]);
    if name.len() > 0 {
        assert(part[0] == name[0]);
        let rest = name.skip(1);
        assert(buf.subrange(start + 1, start + 1 + rest.len() + 1) =~= rest + seq![0u8]) by {
            assert forall|t: int| 0 <= t < rest.len() + 1 implies buf[start + 1 + t] == (rest
                + seq![0u8])[t] by {
                assert(part[t + 1] == buf[start + 1 + t]);
            }
        }
        lemma_first_zero(buf, start + 1, rest);
    }
}

/// The parts of an encoded archive and where they lie.
pub open spec fn mha_layout(buf: Seq<u8>, files: Seq<Entry>, base_id: u16, capacity: u16) -> bool {
    let bodies = concat(bodies_of(files));
    let names = concat(names_of(files));
    let records = mha_records(files, base_id, files.len() as int);
    &&& buf.len() == mha_len(files)
    &&& bodies.len() == total_len(bodies_of(files))
    &&& names.len() == total_len(names_of(files))
    &&& records.len() == 20 * files.len()
    &&& buf.subrange(0, 24) == mha_header(files, base_id, capacity)
    &&& buf.subrange(24, 24 + bodies.len() as int) == bodies
    &&& buf.subrange(24 + bodies.len() as int, 24 + bodies.len() as int + names.len() as int)
        == names
    &&& buf.subrange(24 + bodies.len() as int + names.len() as int, buf.len() as int) == records
}

#[verifier::rlimit(30)]
proof fn lemma_mha_layout(files: Seq<Entry>, base_id: u16, capacity: u16)
    ensures
        mha_layout(mha_encode(files, base_id, capacity), files, base_id, capacity),
{
    let buf = mha_encode(files, base_id, capacity);
    let header = mha_header(files, base_id, capacity);
    let bodies = concat(bodies_of(files));
    let names = concat(names_of(files));
    let records = mha_records(files, base_id, files.len() as int);
    lemma_mha_records_len(files, base_id, files.len() as int);
    lemma_concat_total(bodies_of(files));
    lemma_concat_total(names_of(files));
    assert(header.len() == 24);
    assert(buf.subrange(0, 24) =~= header);
    let nb = bodies.len() as int;
    let nn = names.len() as int;
    assert(buf.subrange(24, 24 + nb) =~= bodies);
    assert(buf.subrange(24 + nb, 24 + nb + nn) =~= names);
    assert(buf.subrange(24 + nb + nn, buf.len() as int) =~= records);
}

proof fn lemma_concat_total(parts: Seq<Seq<u8>>)
    ensures
        concat(parts).len() == total_len(parts),
        total_len(parts) >= 0,
    decreases parts.len(),
{
    if parts.len() > 0 {
        lemma_concat_total(parts.drop_last());
    }
}

/// A part of a part of a buffer is a part of the buffer.
proof fn lemma_sub_sub(buf: Seq<u8>, a: int, b: int, lo: int, hi: int)
    requires
        0 <= a <= b <= buf.len(),
        0 <= lo <= hi <= b - a,
    ensures
        buf.subrange(a, b).subrange(lo, hi) == buf.subrange(a + lo, a + hi),
{
    assert(buf.subrange(a, b).subrange(lo, hi) =~= buf.subrange(a + lo, a + hi));
}

/// The header of an encoded archive reads as it was written.
#[verifier::rlimit(30)]
proof fn lemma_mha_header_fields(buf: Seq<u8>, files: Seq<Entry>, base_id: u16, capacity: u16)
    requires
        mha_layout(buf, files, base_id, capacity),
        mha_len(files) <= u32::MAX,
    ensures
        u32_le(buf, 0) == MHA_MAGIC,
        mha_records_at(buf) == 24 + total_len(bodies_of(files)) + total_len(names_of(files)),
        mha_count(buf) == files.len(),
        mha_names_at(buf) == 24 + total_len(bodies_of(files)),
        mha_base_id(buf) == base_id,
        mha_capacity(buf) == capacity,
{
    let header = mha_header(files, base_id, capacity);
    let bodies = total_len(bodies_of(files));
    let names = total_len(names_of(files));
    lemma_sub_sub(buf, 0, 24, 0, 4);
    lemma_sub_sub(buf, 0, 24, 4, 8);
    lemma_sub_sub(buf, 0, 24, 8, 12);
    lemma_sub_sub(buf, 0, 24, 12, 16);
    lemma_sub_sub(buf, 0, 24, 20, 22);
    lemma_sub_sub(buf, 0, 24, 22, 24);
    assert(header.subrange(0, 4) =~= u32_le_bytes(MHA_MAGIC));
    assert(header.subrange(4, 8) =~= u32_le_bytes((24 + bodies + names) as u32));
    assert(header.subrange(8, 12) =~= u32_le_bytes(files.len() as u32));
    assert(header.subrange(12, 16) =~= u32_le_bytes((24 + bodies) as u32));
    assert(header.subrange(20, 22) =~= u16_le_bytes(base_id));
    assert(header.subrange(22, 24) =~= u16_le_bytes(capacity));
    lemma_u32_le_at(buf, 0, MHA_MAGIC);
    lemma_u32_le_at(buf, 4, (24 + bodies + names) as u32);
    lemma_u32_le_at(buf, 8, files.len() as u32);
    lemma_u32_le_at(buf, 12, (24 + bodies) as u32);
    lemma_u16_le_at(buf, 20, base_id);
    lemma_u16_le_at(buf, 22, capacity);
}

/// The record of entry `i` of an encoded archive reads as it was written.
proof fn lemma_mha_record_fields(
    buf: Seq<u8>,
    files: Seq<Entry>,
    base_id: u16,
    capacity: u16,
    i: int,
)
    requires
        mha_layout(buf, files, base_id, capacity),
        mha_len(files) <= u32::MAX,
        0 <= i < files.len(),
    ensures
        ({
            let r = 24 + total_len(bodies_of(files)) + total_len(names_of(files)) + 20 * i;
            &&& 0 <= r
            &&& r + 20 <= buf.len()
            &&& u32_le(buf, r) == total_len(names_of(files).take(i))
            &&& u32_le(buf, r + 4) == 24 + total_len(bodies_of(files).take(i))
            &&& u32_le(buf, r + 8) == files[i].1.len()
        }),
{
    let nb = total_len(bodies_of(files));
    let nn = total_len(names_of(files));
    lemma_concat_total(bodies_of(files));
    lemma_concat_total(names_of(files));
    lemma_mha_records(files, base_id, files.len() as int, i);
    let r = 24 + nb + nn + 20 * i;
    let rec = mha_record(files, base_id, i);
    lemma_sub_sub(buf, 24 + nb + nn, buf.len() as int, 20 * i, 20 * i + 20);
    assert(buf.subrange(r, r + 20) == rec);
    let name_rel = total_len(names_of(files).take(i));
    let body_rel = total_len(bodies_of(files).take(i));
    lemma_total_len_take(names_of(files), i);
    lemma_total_len_take(bodies_of(files), i);
    lemma_total_len_take(bodies_of(files), i + 1);
    let size = files[i].1.len() as int;
    assert(bodies_of(files)[i] == files[i].1);
    lemma_sub_sub(buf, r, r + 20, 0, 4);
    lemma_sub_sub(buf, r, r + 20, 4, 8);
    lemma_sub_sub(buf, r, r + 20, 8, 12);
    lemma_five_words(
        name_rel as u32,
        (24 + body_rel) as u32,
        size as u32,
        size as u32,
        (base_id + i) as u32,
    );
    lemma_u32_le_at(buf, r, name_rel as u32);
    lemma_u32_le_at(buf, r + 4, (24 + body_rel) as u32);
    lemma_u32_le_at(buf, r + 8, size as u32);
}

/// Five words in a row, and where each of the first three lies.
proof fn lemma_five_words(a: u32, b: u32, c: u32, d: u32, e: u32)
    ensures
        ({
            let all = u32_le_bytes(a) + u32_le_bytes(b) + u32_le_bytes(c) + u32_le_bytes(d)
                + u32_le_bytes(e);
            &&& all.len() == 20
            &&& all.subrange(0, 4) == u32_le_bytes(a)
            &&& all.subrange(4, 8) == u32_le_bytes(b)
            &&& all.subrange(8, 12) == u32_le_bytes(c)
        }),
{
    let wa = u32_le_bytes(a);
    let wb = u32_le_bytes(b);
    let wc = u32_le_bytes(c);
    let wd = u32_le_bytes(d);
    let we = u32_le_bytes(e);
    let all = wa + wb + wc + wd + we;
    assert(wa.len() == 4 && wb.len() == 4 && wc.len() == 4 && wd.len() == 4 && we.len() == 4);
    assert(all.subrange(0, 4) =~= wa);
    assert(all.subrange(4, 8) =~= wb);
    assert(all.subrange(8, 12) =~= wc);
}

/// The name of entry `i` of an encoded archive is found where its record says.
proof fn lemma_mha_name(buf: Seq<u8>, files: Seq<Entry>, base_id: u16, capacity: u16, i: int)
    requires
        mha_layout(buf, files, base_id, capacity),
        names_ok(files),
        0 <= i < files.len(),
    ensures
        ({
            let at = 24 + total_len(bodies_of(files)) + total_len(names_of(files).take(i));
            &&& first_zero(buf, at) == at + files[i].0.len()
            &&& buf.subrange(at, at + files[i].0.len()) == files[i].0
        }),
{
    let nb = total_len(bodies_of(files));
    let nn = total_len(names_of(files));
    lemma_concat_total(bodies_of(files));
    lemma_concat_total(names_of(files));
    let name_rel = total_len(names_of(files).take(i));
    lemma_total_len_take(names_of(files), i);
    lemma_total_len_take(names_of(files), i + 1);
    lemma_concat(names_of(files), i);
    let name = files[i].0;
    let at = 24 + nb + name_rel;
    assert(names_of(files)[i] == name + seq![0u8]);
    lemma_sub_sub(buf, 24 + nb, 24 + nb + nn, name_rel, name_rel + name.len() + 1);
    lemma_first_zero(buf, at, name);
    lemma_sub_sub(buf, at, at + name.len() + 1, 0, name.len() as int);
    assert((name + seq![0u8]).subrange(0, name.len() as int) =~= name);
}

/// The body of entry `i` of an encoded archive is found where its record says.
proof fn lemma_mha_body(buf: Seq<u8>, files: Seq<Entry>, base_id: u16, capacity: u16, i: int)
    requires
        mha_layout(buf, files, base_id, capacity),
        0 <= i < files.len(),
    ensures
        ({
            let at = 24 + total_len(bodies_of(files).take(i));
            &&& at + files[i].1.len() <= buf.len()
            &&& buf.subrange(at, at + files[i].1.len()) == files[i].1
        }),
{
    let nb = total_len(bodies_of(files));
    lemma_concat_total(bodies_of(files));
    lemma_concat_total(names_of(files));
    let body_rel = total_len(bodies_of(files).take(i));
    lemma_total_len_take(bodies_of(files), i);
    lemma_total_len_take(bodies_of(files), i + 1);
    lemma_concat(bodies_of(files), i);
    assert(bodies_of(files)[i] == files[i].1);
    lemma_sub_sub(buf, 24, 24 + nb, body_rel, body_rel + files[i].1.len());
}

/// Entry `i` of an encoded archive reads as it was written.
proof fn lemma_mha_entry(buf: Seq<u8>, files: Seq<Entry>, base_id: u16, capacity: u16, i: int)
    requires
        mha_layout(buf, files, base_id, capacity),
        mha_len(files) <= u32::MAX,
        names_ok(files),
        0 <= i < files.len(),
    ensures
        mha_entry(buf, i) == Ok::<Entry, ArchiveError>(files[i]),
{
    lemma_mha_header_fields(buf, files, base_id, capacity);
    lemma_mha_record_fields(buf, files, base_id, capacity, i);
    lemma_mha_name(buf, files, base_id, capacity, i);
    lemma_mha_body(buf, files, base_id, capacity, i);
    assert(valid_utf8(files[i].0));
}

proof fn lemma_mha_entries(buf: Seq<u8>, files: Seq<Entry>, base_id: u16, capacity: u16, k: int)
    requires
        mha_layout(buf, files, base_id, capacity),
        mha_len(files) <= u32::MAX,
        names_ok(files),
        0 <= k <= files.len(),
    ensures
        mha_entries(buf, k) == Ok::<Seq<Entry>, ArchiveError>(files.take(k)),
    decreases k,
{
    if k > 0 {
        lemma_mha_entries(buf, files, base_id, capacity, k - 1);
        lemma_mha_entry(buf, files, base_id, capacity, k - 1);
        assert(files.take(k - 1).push(files[k - 1]) =~= files.take(k));
    } else {
        assert(files.take(0) =~= Seq::<Entry>::empty());
    }
}

/// Decoding an encoded archive gives the entries back, and after them the
/// `.metadata` entry with the two numbers of the header.
pub proof fn lemma_mha_round_trip(files: Seq<Entry>, base_id: u16, capacity: u16)
    requires
        mha_len(files) <= u32::MAX,
        names_ok(files),
    ensures
        is_mha(mha_encode(files, base_id, capacity)),
        mha_decode(mha_encode(files, base_id, capacity)) == Ok::<Seq<Entry>, ArchiveError>(
            files.push(metadata_entry(base_id as int, capacity as int)),
        ),
{
    let buf = mha_encode(files, base_id, capacity);
    lemma_mha_layout(files, base_id, capacity);
    lemma_concat_total(bodies_of(files));
    lemma_concat_total(names_of(files));
    lemma_mha_header_fields(buf, files, base_id, capacity);
    lemma_mha_entries(buf, files, base_id, capacity, files.len() as int);
    assert(files.take(files.len() as int) =~= files);
}

/// No name holds a zero byte.
pub open spec fn names_without_zero(files: Seq<Entry>) -> bool {
    forall|i: int, t: int|
        0 <= i < files.len() && 0 <= t < files[i].0.len() ==> (#[trigger] files[i].0[t]) != 0
}

/// Whether the files fit into an MHA archive, whose offsets are 32-bit numbers.
pub fn mha_archive_fits(files: &Vec<(String, Vec<u8>)>) -> (r: bool)
    ensures
        r == (mha_len(entry_views(files@)) <= u32::MAX),
{
    let ghost ev = entry_views(files@);
    let ghost bodies = bodies_of(ev);
    let ghost names = names_of(ev);
    proof {
        lemma_concat_total(bodies);
        lemma_concat_total(names);
    }
    if files.len() > 0x0fff_ffff {
        return false;
    }
    let mut total: u64 = 24 + 20 * (files.len() as u64);
    if total > u32::MAX as u64 {
        return false;
    }
    let mut i: usize = 0;
    assert(bodies.take(0) =~= Seq::<Seq<u8>>::empty());
    assert(names.take(0) =~= Seq::<Seq<u8>>::empty());
    while i < files.len()
        invariant
            i <= files.len(),
            files.len() <= 0x0fff_ffff,
            ev == entry_views(files@),
            bodies == bodies_of(ev),
            names == names_of(ev),
            total == 24 + 20 * files.len() + total_len(bodies.take(i as int)) + total_len(
                names.take(i as int),
            ),
            total <= u32::MAX,
        decreases files.len() - i,
    {
        proof {
            lemma_total_len_take(bodies, i as int);
            lemma_total_len_take(bodies, i + 1);
            lemma_total_len_take(names, i as int);
            lemma_total_len_take(names, i + 1);
        }
        let name_len: u64 = files[i].0.as_str().as_bytes().len() as u64;
        let body_len: u64 = files[i].1.len() as u64;
        assert(names[i as int].len() == name_len + 1);
        assert(bodies[i as int].len() == body_len);
        if name_len >= u32::MAX as u64 || body_len > u32::MAX as u64 {
            return false;
        }
        if name_len + 1 + body_len > u32::MAX as u64 - total {
            return false;
        }
        total = total + name_len + 1 + body_len;
        i = i + 1;
    }
    assert(bodies.take(files.len() as int) =~= bodies);
    assert(names.take(files.len() as int) =~= names);
    true
}

/// The bodies of the files, one after another.
fn write_mha_bodies(files: &Vec<(String, Vec<u8>)>) -> (files_buf: Vec<u8>)
    ensures
        files_buf@ == concat(bodies_of(entry_views(files@))),
{
    let ghost bodies = bodies_of(entry_views(files@));
    let mut files_buf: Vec<u8> = Vec::new();
    let mut i: usize = 0;
    assert(bodies.take(0) =~= Seq::<Seq<u8>>::empty());
    while i < files.len()
        invariant
            i <= files.len(),
            bodies == bodies_of(entry_views(files@)),
            files_buf@ == concat(bodies.take(i as int)),
        decreases files.len() - i,
    {
        proof {
            assert(bodies.take(i + 1).drop_last() =~= bodies.take(i as int));
            assert(bodies.take(i + 1).last() == files@[i as int].1@);
        }
        append_bytes(&mut files_buf, files[i].1.as_slice());
        i = i + 1;
    }
    assert(bodies.take(files.len() as int) =~= bodies);
    files_buf
}

/// The names of the files, each with a zero byte after it.
fn write_mha_names(files: &Vec<(String, Vec<u8>)>) -> (string_buf: Vec<u8>)
    ensures
        string_buf@ == concat(names_of(entry_views(files@))),
{
    let ghost names = names_of(entry_views(files@));
    let mut string_buf: Vec<u8> = Vec::new();
    let mut i: usize = 0;
    assert(names.take(0) =~= Seq::<Seq<u8>>::empty());
    while i < files.len()
        invariant
            i <= files.len(),
            names == names_of(entry_views(files@)),
            string_buf@ == concat(names.take(i as int)),
        decreases files.len() - i,
    {
        let ghost before = string_buf@;
        let ghost name = encode_utf8(files@[i as int].0@);
        proof {
            assert(names.take(i + 1).drop_last() =~= names.take(i as int));
            assert(names.take(i + 1).last() == name + seq![0u8]);
        }
        append_bytes(&mut string_buf, files[i].0.as_str().as_bytes());
        string_buf.push(0);
        assert(string_buf@ =~= before + (name + seq![0u8]));
        i = i + 1;
    }
    assert(names.take(files.len() as int) =~= names);
    string_buf
}

/// The records of the files.
fn write_mha_records(files: &Vec<(String, Vec<u8>)>, base_id: u16) -> (metadata_buf: Vec<u8>)
    requires
        mha_len(entry_views(files@)) <= u32::MAX,
    ensures
        metadata_buf@ == mha_records(entry_views(files@), base_id, files@.len() as int),
{
    let ghost ev = entry_views(files@);
    let ghost bodies = bodies_of(ev);
    let ghost names = names_of(ev);
    let mut metadata_buf: Vec<u8> = Vec::new();
    let mut relative_str_off: usize = 0;
    let mut relative_file_data_off: usize = 0;
    let mut i: usize = 0;
    proof {
        lemma_concat_total(bodies);
        lemma_concat_total(names);
        assert(bodies.take(0) =~= Seq::<Seq<u8>>::empty());
        assert(names.take(0) =~= Seq::<Seq<u8>>::empty());
    }
    while i < files.len()
        invariant
            i <= files.len(),
            ev == entry_views(files@),
            bodies == bodies_of(ev),
            names == names_of(ev),
            24 + total_len(bodies) + total_len(names) + 20 * files.len() <= u32::MAX,
            relative_str_off == total_len(names.take(i as int)),
            relative_file_data_off == total_len(bodies.take(i as int)),
            metadata_buf@ == mha_records(ev, base_id, i as int),
        decreases files.len() - i,
    {
        let name_len: usize = files[i].0.as_str().as_bytes().len();
        let body_len: usize = files[i].1.len();
        proof {
            lemma_total_len_take(bodies, i as int);
            lemma_total_len_take(bodies, i + 1);
            lemma_total_len_take(names, i as int);
            lemma_total_len_take(names, i + 1);
            assert(bodies[i as int].len() == body_len);
            assert(names[i as int].len() == name_len + 1);
        }
        let ghost before = metadata_buf@;
        let ghost record = mha_record(ev, base_id, i as int);
        push_u32_le(&mut metadata_buf, relative_str_off as u32);
        push_u32_le(&mut metadata_buf, (MHA_HEADER_LEN + relative_file_data_off) as u32);
        push_u32_le(&mut metadata_buf, body_len as u32);
        push_u32_le(&mut metadata_buf, body_len as u32);
        push_u32_le(&mut metadata_buf, base_id as u32 + i as u32);
        proof {
            assert(ev[i as int].1.len() == body_len);
            assert(metadata_buf@ =~= before + record);
        }
        relative_str_off = relative_str_off + name_len + 1;
        relative_file_data_off = relative_file_data_off + body_len;
        i = i + 1;
    }
    metadata_buf
}

/// Packs the named files into an MHA archive: the header, the bodies, the names,
/// then the records. The files get the ids from `base_id` on.
///
/// Decoding the archive gives the files back, and after them the `.metadata` entry,
/// provided no name holds a zero byte.
pub fn encode_mha_archive(files: Vec<(String, Vec<u8>)>, base_id: u16, capacity: u16) -> (out: Vec<
    u8,
>)
    requires
        mha_len(entry_views(files@)) <= u32::MAX,
    ensures
        out@ == mha_encode(entry_views(files@), base_id, capacity),
        is_mha(out@),
        names_without_zero(entry_views(files@)) ==> mha_decode(out@) == Ok::<
            Seq<Entry>,
            ArchiveError,
        >(entry_views(files@).push(metadata_entry(base_id as int, capacity as int))),
{
    let ghost ev = entry_views(files@);
    let nb_files: usize = files.len();
    let files_buf = write_mha_bodies(&files);
    let string_buf = write_mha_names(&files);
    let metadata_buf = write_mha_records(&files, base_id);
    proof {
        lemma_concat_total(bodies_of(ev));
        lemma_concat_total(names_of(ev));
    }
    let mut out: Vec<u8> = Vec::new();
    push_u32_le(&mut out, MHA_MAGIC);
    push_u32_le(&mut out, (MHA_HEADER_LEN + files_buf.len() + string_buf.len()) as u32);
    push_u32_le(&mut out, nb_files as u32);
    push_u32_le(&mut out, (MHA_HEADER_LEN + files_buf.len()) as u32);
    push_u32_le(&mut out, string_buf.len() as u32);
    push_u16_le(&mut out, base_id);
    push_u16_le(&mut out, capacity);
    assert(out@ =~= mha_header(ev, base_id, capacity));
    append_bytes(&mut out, files_buf.as_slice());
    append_bytes(&mut out, string_buf.as_slice());
    append_bytes(&mut out, metadata_buf.as_slice());
    proof {
        assert(out@ =~= mha_encode(ev, base_id, capacity));
        lemma_mha_layout(ev, base_id, capacity);
        lemma_mha_header_fields(out@, ev, base_id, capacity);
        if names_without_zero(ev) {
            assert forall|i: int| 0 <= i < ev.len() implies valid_utf8(#[trigger] ev[i].0)
                && forall|t: int| 0 <= t < ev[i].0.len() ==> ev[i].0[t] != 0 by {
                vstd::utf8::encode_utf8_valid_utf8(files@[i].0@);
            }
            lemma_mha_round_trip(ev, base_id, capacity);
        }
    }
    out
}

} // verus!
