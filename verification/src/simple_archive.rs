//! The Simple Archive: a count, a table of offsets and sizes, then the bodies.

use crate::endian::{get_u32_le, lemma_u32_le_at, push_u32_le, u32_le, u32_le_bytes};
use crate::path::append_bytes;
use vstd::prelude::*;
use vstd::slice::slice_subrange;

verus! {

/// Why an archive could not be decoded.
#[derive(Debug, Clone, Copy, PartialEq, Eq, Structural)]
pub enum ArchiveError {
    /// The buffer is too short for its header or its table, or does not begin with
    /// the magic number of its format.
    MalformedHeader,
    /// An entry reaches beyond the end of the buffer.
    TruncatedPayload,
    /// The name of an entry has no end, or is not valid UTF-8.
    BadName,
}

/// A buffer is taken for a Simple Archive only if it holds fewer files than this.
pub const SIMPLE_MAX_FILES: u32 = 9999;

/// The number of files that the buffer declares.
pub open spec fn sa_count(buf: Seq<u8>) -> int {
    u32_le(buf, 0)
}

/// The offset of file `i`.
pub open spec fn sa_offset(buf: Seq<u8>, i: int) -> int {
    u32_le(buf, 4 + 8 * i)
}

/// The size of file `i`.
pub open spec fn sa_size(buf: Seq<u8>, i: int) -> int {
    u32_le(buf, 8 + 8 * i)
}

/// The count and the whole table are inside the buffer.
pub open spec fn sa_table_ok(buf: Seq<u8>) -> bool {
    buf.len() >= 4 && 4 + 8 * sa_count(buf) <= buf.len()
}

/// The first `n` files lie inside the buffer.
pub open spec fn sa_bodies_ok(buf: Seq<u8>, n: int) -> bool {
    forall|i: int| 0 <= i < n ==> #[trigger] sa_offset(buf, i) + sa_size(buf, i) <= buf.len()
}

/// The sum of the sizes of the first `n` files.
pub open spec fn sa_size_sum(buf: Seq<u8>, n: int) -> int
    decreases n,
{
    if n <= 0 {
        0
    } else {
        sa_size_sum(buf, n - 1) + sa_size(buf, n - 1)
    }
}

/// The buffer has the shape of a Simple Archive: fewer than 9999 files, each inside
/// the buffer, and the table and the sizes add up to the buffer's length.
pub open spec fn is_simple_archive(buf: Seq<u8>) -> bool {
    &&& sa_table_ok(buf)
    &&& sa_count(buf) < SIMPLE_MAX_FILES
    &&& sa_bodies_ok(buf, sa_count(buf))
    &&& 4 + 8 * sa_count(buf) + sa_size_sum(buf, sa_count(buf)) == buf.len()
}

/// The files of a Simple Archive, in the order of its table.
pub open spec fn simple_decode(buf: Seq<u8>) -> Result<Seq<Seq<u8>>, ArchiveError> {
    if !sa_table_ok(buf) {
        Err(ArchiveError::MalformedHeader)
    } else if !sa_bodies_ok(buf, sa_count(buf)) {
        Err(ArchiveError::TruncatedPayload)
    } else {
        Ok(
            Seq::new(
                sa_count(buf) as nat,
                |i: int| buf.subrange(sa_offset(buf, i), sa_offset(buf, i) + sa_size(buf, i)),
            ),
        )
    }
}

/// The contents of a list of buffers.
pub open spec fn views(files: Seq<Vec<u8>>) -> Seq<Seq<u8>> {
    Seq::new(files.len(), |i: int| files[i]@)
}

/// The sum of the lengths of the files.
pub open spec fn total_len(files: Seq<Seq<u8>>) -> int
    decreases files.len(),
{
    if files.len() == 0 {
        0
    } else {
        total_len(files.drop_last()) + files.last().len()
    }
}

/// The table of the first `k` files, whose bodies begin at `base`.
pub open spec fn sa_records(files: Seq<Seq<u8>>, base: int, k: int) -> Seq<u8>
    decreases k,
{
    if k <= 0 {
        Seq::empty()
    } else {
        sa_records(files, base, k - 1) + u32_le_bytes((base + total_len(files.take(k - 1))) as u32)
            + u32_le_bytes(files[k - 1].len() as u32)
    }
}

/// The bodies of the files, one after another.
pub open spec fn concat(files: Seq<Seq<u8>>) -> Seq<u8>
    decreases files.len(),
{
    if files.len() == 0 {
        Seq::empty()
    } else {
        concat(files.drop_last()) + files.last()
    }
}

/// The Simple Archive of a list of files.
pub open spec fn simple_encode(files: Seq<Seq<u8>>) -> Seq<u8> {
    u32_le_bytes(files.len() as u32) + sa_records(files, 4 + 8 * files.len() as int, files.len() as int)
        + concat(files)
}

/// The length of what the files need in an archive: the count, the table and the
/// bodies.
pub open spec fn simple_len(files: Seq<Seq<u8>>) -> int {
    4 + 8 * files.len() + total_len(files)
}

/// The lengths of the first files add up to no more than the lengths of all.
pub proof fn lemma_total_len_take(files: Seq<Seq<u8>>, k: int)
    requires
        0 <= k <= files.len(),
    ensures
        0 <= total_len(files.take(k)) <= total_len(files),
        k < files.len() ==> total_len(files.take(k)) + files[k].len() == total_len(
            files.take(k + 1),
        ),
    decreases files.len() - k,
{
    if k < files.len() {
        assert(files.take(k + 1).drop_last() =~= files.take(k));
        lemma_total_len_take(files, k + 1);
    } else {
        assert(files.take(k) =~= files);
        lemma_total_len_nonneg(files);
    }
    lemma_total_len_nonneg(files.take(k));
}

proof fn lemma_total_len_nonneg(files: Seq<Seq<u8>>)
    ensures
        total_len(files) >= 0,
    decreases files.len(),
{
    if files.len() > 0 {
        lemma_total_len_nonneg(files.drop_last());
    }
}

/// The bodies have the length of the files together, and each file is found
/// where the files before it end.
pub proof fn lemma_concat(files: Seq<Seq<u8>>, i: int)
    requires
        0 <= i < files.len(),
    ensures
        concat(files).len() == total_len(files),
        concat(files).subrange(
            total_len(files.take(i)),
            total_len(files.take(i)) + files[i].len(),
        ) == files[i],
    decreases files.len(),
{
    let front = files.drop_last();
    lemma_concat_len(files);
    lemma_concat_len(front);
    lemma_total_len_take(files, i);
    if i == files.len() - 1 {
        assert(files.take(i) =~= front);
        assert(concat(files).subrange(total_len(front), total_len(front) + files[i].len())
            =~= files[i]);
    } else {
        lemma_concat(front, i);
        assert(front.take(i) =~= files.take(i));
        lemma_total_len_take(front, i);
        lemma_total_len_take(front, i + 1);
        let a = total_len(files.take(i));
        assert(concat(files).subrange(a, a + files[i].len()) =~= concat(front).subrange(
            a,
            a + files[i].len(),
        ));
    }
}

proof fn lemma_concat_len(files: Seq<Seq<u8>>)
    ensures
        concat(files).len() == total_len(files),
    decreases files.len(),
{
    if files.len() > 0 {
        lemma_concat_len(files.drop_last());
    }
}

/// The table has eight bytes for each file: its offset, then its size.
pub proof fn lemma_sa_records(files: Seq<Seq<u8>>, base: int, k: int, i: int)
    requires
        0 <= i < k <= files.len(),
    ensures
        sa_records(files, base, k).len() == 8 * k,
        sa_records(files, base, k).subrange(8 * i, 8 * i + 4) == u32_le_bytes(
            (base + total_len(files.take(i))) as u32,
        ),
        sa_records(files, base, k).subrange(8 * i + 4, 8 * i + 8) == u32_le_bytes(
            files[i].len() as u32,
        ),
    decreases k,
{
    lemma_sa_records_len(files, base, k);
    lemma_sa_records_len(files, base, k - 1);
    let r = sa_records(files, base, k);
    let front = sa_records(files, base, k - 1);
    if i == k - 1 {
        assert(r.subrange(8 * i, 8 * i + 4) =~= u32_le_bytes(
            (base + total_len(files.take(i))) as u32,
        ));
        assert(r.subrange(8 * i + 4, 8 * i + 8) =~= u32_le_bytes(files[i].len() as u32));
    } else {
        lemma_sa_records(files, base, k - 1, i);
        assert(r.subrange(8 * i, 8 * i + 4) =~= front.subrange(8 * i, 8 * i + 4));
        assert(r.subrange(8 * i + 4, 8 * i + 8) =~= front.subrange(8 * i + 4, 8 * i + 8));
    }
}

proof fn lemma_sa_records_len(files: Seq<Seq<u8>>, base: int, k: int)
    requires
        0 <= k,
    ensures
        sa_records(files, base, k).len() == 8 * k,
    decreases k,
{
    if k > 0 {
        lemma_sa_records_len(files, base, k - 1);
    }
}

/// A part of the middle of three sequences in a row.
pub proof fn lemma_sub_middle(a: Seq<u8>, b: Seq<u8>, c: Seq<u8>, lo: int, hi: int)
    requires
        0 <= lo <= hi <= b.len(),
    ensures
        (a + b + c).subrange(a.len() + lo, a.len() + hi) == b.subrange(lo, hi),
{
    assert((a + b + c).subrange(a.len() + lo, a.len() + hi) =~= b.subrange(lo, hi));
}

/// A part of the last of three sequences in a row.
pub proof fn lemma_sub_last(a: Seq<u8>, b: Seq<u8>, c: Seq<u8>, lo: int, hi: int)
    requires
        0 <= lo <= hi <= c.len(),
    ensures
        (a + b + c).subrange(a.len() + b.len() + lo, a.len() + b.len() + hi) == c.subrange(
            lo,
            hi,
        ),
{
    assert((a + b + c).subrange(a.len() + b.len() + lo, a.len() + b.len() + hi) =~= c.subrange(
        lo,
        hi,
    ));
}

/// A word in the middle of three sequences in a row reads as it was written.
pub proof fn lemma_word_in_middle(a: Seq<u8>, b: Seq<u8>, c: Seq<u8>, lo: int, n: u32)
    requires
        0 <= lo,
        lo + 4 <= b.len(),
        b.subrange(lo, lo + 4) == u32_le_bytes(n),
    ensures
        u32_le(a + b + c, a.len() + lo) == n,
{
    lemma_sub_middle(a, b, c, lo, lo + 4);
    lemma_u32_le_at(a + b + c, a.len() + lo, n);
}

/// A word at the front of three sequences in a row reads as it was written.
pub proof fn lemma_word_in_front(b: Seq<u8>, c: Seq<u8>, n: u32)
    ensures
        u32_le(u32_le_bytes(n) + b + c, 0) == n,
{
    let buf = u32_le_bytes(n) + b + c;
    assert(buf.subrange(0, 4) =~= u32_le_bytes(n));
    lemma_u32_le_at(buf, 0, n);
}

/// What is read from an encoded archive: the count, and for each file the offset
/// and the size that were written.
pub proof fn lemma_simple_fields(files: Seq<Seq<u8>>, i: int)
    requires
        simple_len(files) <= u32::MAX,
        0 <= i < files.len(),
    ensures
        simple_encode(files).len() == simple_len(files),
        sa_count(simple_encode(files)) == files.len(),
        sa_offset(simple_encode(files), i) == 4 + 8 * files.len() + total_len(files.take(i)),
        sa_size(simple_encode(files), i) == files[i].len(),
        simple_encode(files).subrange(
            sa_offset(simple_encode(files), i),
            sa_offset(simple_encode(files), i) + sa_size(simple_encode(files), i),
        ) == files[i],
{
    let n = files.len() as int;
    let base = 4 + 8 * n;
    let head = u32_le_bytes(n as u32);
    let recs = sa_records(files, base, n);
    let bodies = concat(files);
    lemma_sa_records(files, base, n, i);
    lemma_concat(files, i);
    lemma_total_len_take(files, i);
    lemma_total_len_take(files, i + 1);
    lemma_simple_len(files);
    let a = total_len(files.take(i));
    lemma_word_in_front(recs, bodies, n as u32);
    lemma_word_in_middle(head, recs, bodies, 8 * i, (base + a) as u32);
    lemma_word_in_middle(head, recs, bodies, 8 * i + 4, files[i].len() as u32);
    lemma_sub_last(head, recs, bodies, a, a + files[i].len());
}

/// An archive has the length that its files need.
pub proof fn lemma_simple_len(files: Seq<Seq<u8>>)
    ensures
        simple_encode(files).len() == simple_len(files),
        total_len(files) >= 0,
{
    lemma_total_len_nonneg(files);
    lemma_sa_records_len(files, 4 + 8 * files.len() as int, files.len() as int);
    lemma_concat_len(files);
}

proof fn lemma_size_sum(files: Seq<Seq<u8>>, k: int)
    requires
        simple_len(files) <= u32::MAX,
        0 <= k <= files.len(),
    ensures
        sa_size_sum(simple_encode(files), k) == total_len(files.take(k)),
    decreases k,
{
    if k > 0 {
        lemma_size_sum(files, k - 1);
        lemma_simple_fields(files, k - 1);
        lemma_total_len_take(files, k - 1);
    } else {
        assert(files.take(0) =~= Seq::<Seq<u8>>::empty());
    }
}

/// Decoding an encoded archive gives the files back, and an archive of fewer than
/// 9999 files has the shape by which archives are recognised.
pub proof fn lemma_simple_round_trip(files: Seq<Seq<u8>>)
    requires
        simple_len(files) <= u32::MAX,
    ensures
        simple_decode(simple_encode(files)) == Ok::<Seq<Seq<u8>>, ArchiveError>(files),
        files.len() < SIMPLE_MAX_FILES ==> is_simple_archive(simple_encode(files)),
{
    let buf = simple_encode(files);
    let n = files.len() as int;
    lemma_simple_len(files);
    lemma_total_len_nonneg(files);
    assert(buf.subrange(0, 4) =~= u32_le_bytes(n as u32));
    lemma_u32_le_at(buf, 0, n as u32);
    assert forall|i: int| 0 <= i < n implies #[trigger] sa_offset(buf, i) + sa_size(buf, i)
        <= buf.len() by {
        lemma_simple_fields(files, i);
        lemma_total_len_take(files, i);
        lemma_total_len_take(files, i + 1);
    }
    let decoded = simple_decode(buf).unwrap();
    assert forall|i: int| 0 <= i < n implies decoded[i] == files[i] by {
        lemma_simple_fields(files, i);
    }
    assert(decoded =~= files);
    lemma_size_sum(files, n);
    assert(files.take(n) =~= files);
}

/// Whether the count and the table of `buf` lie inside it.
fn table_fits(buf: &[u8]) -> (r: bool)
    ensures
        r == sa_table_ok(buf@),
{
    if buf.len() < 4 {
        return false;
    }
    let count: u64 = get_u32_le(buf, 0) as u64;
    4 + 8 * count <= buf.len() as u64
}

/// Takes a Simple Archive apart into its files.
pub fn decode_simple_archive(buf: &[u8]) -> (r: Result<Vec<Vec<u8>>, ArchiveError>)
    ensures
        match simple_decode(buf@) {
            Err(e) => r == Err::<Vec<Vec<u8>>, ArchiveError>(e),
            Ok(files) => r is Ok && views(r.unwrap()@) == files,
        },
{
    if !table_fits(buf) {
        return Err(ArchiveError::MalformedHeader);
    }
    let file_count: usize = get_u32_le(buf, 0) as usize;
    let mut out: Vec<Vec<u8>> = Vec::new();
    let mut i: usize = 0;
    while i < file_count
        invariant
            i <= file_count,
            file_count == sa_count(buf@),
            sa_table_ok(buf@),
            sa_bodies_ok(buf@, i as int),
            out.len() == i,
            forall|k: int|
                0 <= k < i ==> (#[trigger] out@[k])@ == buf@.subrange(
                    sa_offset(buf@, k),
                    sa_offset(buf@, k) + sa_size(buf@, k),
                ),
        decreases file_count - i,
    {
        assert(8 + 8 * i + 4 <= buf.len());
        let file_offset: usize = get_u32_le(buf, 4 + 8 * i) as usize;
        let file_size: usize = get_u32_le(buf, 8 + 8 * i) as usize;
        if file_offset > buf.len() || file_size > buf.len() - file_offset {
            assert(sa_offset(buf@, i as int) + sa_size(buf@, i as int) > buf@.len());
            return Err(ArchiveError::TruncatedPayload);
        }
        let file_buf = vstd::slice::slice_to_vec(
            slice_subrange(buf, file_offset, file_offset + file_size),
        );
        out.push(file_buf);
        i = i + 1;
    }
    assert(views(out@) =~= simple_decode(buf@).unwrap());
    Ok(out)
}

/// Whether the files fit into a Simple Archive, whose offsets are 32-bit numbers.
pub fn simple_archive_fits(files: &[Vec<u8>]) -> (r: bool)
    ensures
        r == (simple_len(views(files@)) <= u32::MAX),
{
    let ghost fs = views(files@);
    if files.len() > 0x1fff_ffff {
        proof {
            lemma_total_len_nonneg(fs);
        }
        return false;
    }
    let mut total: u64 = 4 + 8 * (files.len() as u64);
    let mut i: usize = 0;
    assert(fs.take(0) =~= Seq::<Seq<u8>>::empty());
    while i < files.len()
        invariant
            i <= files.len(),
            files.len() <= 0x1fff_ffff,
            fs == views(files@),
            total == 4 + 8 * files.len() + total_len(fs.take(i as int)),
            total <= u32::MAX,
        decreases files.len() - i,
    {
        proof {
            lemma_total_len_take(fs, i as int);
            lemma_total_len_take(fs, i + 1);
        }
        let size: u64 = files[i].len() as u64;
        if size > u32::MAX as u64 - total {
            return false;
        }
        total = total + size;
        i = i + 1;
    }
    assert(fs.take(files.len() as int) =~= fs);
    true
}

/// Appends the table of the files, whose bodies will begin at `4 + 8 * files.len()`.
fn write_records(out: &mut Vec<u8>, files: &[Vec<u8>])
    requires
        simple_len(views(files@)) <= u32::MAX,
    ensures
        final(out)@ == old(out)@ + sa_records(
            views(files@),
            4 + 8 * files@.len() as int,
            files@.len() as int,
        ),
{
    let ghost fs = views(files@);
    let ghost head = out@;
    let file_count: usize = files.len();
    let ghost base: int = 4 + 8 * file_count;
    proof {
        lemma_total_len_nonneg(fs);
    }
    let mut file_start_off: u32 = (4 + file_count * 8) as u32;
    let mut i: usize = 0;
    assert(fs.take(0) =~= Seq::<Seq<u8>>::empty());
    assert(out@ =~= head + sa_records(fs, base, 0));
    while i < file_count
        invariant
            i <= file_count,
            file_count == files.len(),
            fs == views(files@),
            simple_len(fs) <= u32::MAX,
            base == 4 + 8 * file_count,
            file_start_off == base + total_len(fs.take(i as int)),
            out@ == head + sa_records(fs, base, i as int),
        decreases file_count - i,
    {
        proof {
            lemma_total_len_take(fs, i as int);
            lemma_total_len_take(fs, i + 1);
        }
        let buf_size: usize = files[i].len();
        push_u32_le(out, file_start_off);
        push_u32_le(out, buf_size as u32);
        proof {
            let grown = sa_records(fs, base, i as int) + u32_le_bytes(file_start_off)
                + u32_le_bytes(buf_size as u32);
            assert(sa_records(fs, base, i + 1) == grown);
            assert(out@ =~= head + grown);
        }
        file_start_off = file_start_off + buf_size as u32;
        i = i + 1;
    }
}

/// Appends the bodies of the files.
fn write_bodies(out: &mut Vec<u8>, files: &[Vec<u8>])
    ensures
        final(out)@ == old(out)@ + concat(views(files@)),
{
    let ghost fs = views(files@);
    let ghost head = out@;
    let mut j: usize = 0;
    assert(out@ =~= head + concat(fs.take(0)));
    while j < files.len()
        invariant
            j <= files.len(),
            fs == views(files@),
            out@ == head + concat(fs.take(j as int)),
        decreases files.len() - j,
    {
        append_bytes(out, files[j].as_slice());
        proof {
            assert(fs.take(j + 1).drop_last() =~= fs.take(j as int));
            assert(fs.take(j + 1).last() == files@[j as int]@);
            assert(out@ =~= head + concat(fs.take(j + 1)));
        }
        j = j + 1;
    }
    assert(fs.take(files.len() as int) =~= fs);
}

/// Packs the files into a Simple Archive: the count, the table of offsets and
/// sizes, then the bodies. Decoding the archive gives the files back.
pub fn encode_simple_archive(files: &[Vec<u8>]) -> (out: Vec<u8>)
    requires
        simple_len(views(files@)) <= u32::MAX,
    ensures
        out@ == simple_encode(views(files@)),
        simple_decode(out@) == Ok::<Seq<Seq<u8>>, ArchiveError>(views(files@)),
        files@.len() < SIMPLE_MAX_FILES ==> is_simple_archive(out@),
{
    proof {
        lemma_total_len_nonneg(views(files@));
    }
    let mut out: Vec<u8> = Vec::new();
    push_u32_le(&mut out, files.len() as u32);
    write_records(&mut out, files);
    write_bodies(&mut out, files);
    proof {
        assert(out@ =~= simple_encode(views(files@)));
        lemma_simple_round_trip(views(files@));
    }
    out
}

/// Whether the buffer has the shape of a Simple Archive. There is no magic number:
/// any buffer whose leading numbers add up is taken for one.
pub fn is_buf_simple_archive(buf: &[u8]) -> (r: bool)
    ensures
        r == is_simple_archive(buf@),
{
    if !table_fits(buf) {
        return false;
    }
    let file_count: u32 = get_u32_le(buf, 0);
    if file_count >= SIMPLE_MAX_FILES {
        return false;
    }
    let mut buf_size: u64 = 0;
    let mut i: usize = 0;
    while i < file_count as usize
        invariant
            i <= file_count,
            file_count == sa_count(buf@),
            file_count < SIMPLE_MAX_FILES,
            sa_table_ok(buf@),
            sa_bodies_ok(buf@, i as int),
            buf_size == sa_size_sum(buf@, i as int),
            buf_size <= i * 0xffff_ffff,
        decreases file_count - i,
    {
        assert(8 + 8 * i + 4 <= buf.len());
        let file_offset: usize = get_u32_le(buf, 4 + 8 * i) as usize;
        let file_size: usize = get_u32_le(buf, 8 + 8 * i) as usize;
        if file_offset > buf.len() || file_size > buf.len() - file_offset {
            assert(sa_offset(buf@, i as int) + sa_size(buf@, i as int) > buf@.len());
            return false;
        }
        buf_size = buf_size + file_size as u64;
        i = i + 1;
    }
    let header_size: u64 = 4 + 8 * (file_count as u64);
    buf_size + header_size == buf.len() as u64
}

} // verus!
