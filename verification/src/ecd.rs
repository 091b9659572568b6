//! The ECD stream cipher.

use crate::endian::{
    get_u16_le, get_u32_le, get_u32_le_or_zero, lemma_u16_le_at, lemma_u32_le_at, push_u16_le,
    push_u32_le, u16_le, u16_le_bytes, u32_le, u32_le_bytes, u32_le_or_zero,
};
use vstd::prelude::*;

verus! {

/// The magic number that an ECD buffer begins with.
pub const ECD_MAGIC: u32 = 442786661;

/// The key index that is written into a header.
pub const ECD_INDEX: u16 = 4;

/// The version that is written into a header.
pub const ECD_VERSION: u16 = 31739;

/// The length of the header.
pub const ECD_HEADER_LEN: usize = 16;

/// The header of an ECD buffer.
#[derive(Debug, Clone, Copy)]
pub struct EcdHeader {
    /// The magic number as it was read.
    pub magic: u32,
    /// Which pair of the key table drives the key stream.
    pub index: u16,
    /// The format version.
    pub version: u16,
    /// The number of cipher bytes after the header.
    pub file_size: u32,
    /// The CRC-32 of the plain text, which seeds the key stream.
    pub crc32: u32,
}

/// Why an ECD buffer could not be decrypted.
#[derive(Debug, Clone, Copy, PartialEq, Eq, Structural)]
pub enum EcdError {
    /// The buffer is too short for a header, does not begin with the magic number,
    /// or names a key index that the key table does not have.
    MalformedHeader,
    /// The header declares more cipher bytes than the buffer holds.
    TruncatedPayload,
}

/// The multiplier of the key pair `index`.
pub open spec fn ecd_multiplier(index: int) -> u32 {
    if index == 0 {
        0x4A4B522E
    } else if index == 1 || index == 2 || index == 3 {
        0x00010DCD
    } else if index == 4 {
        0x0019660D
    } else {
        0x7D2B89DD
    }
}

/// The increment of the key pair `index`.
pub open spec fn ecd_increment(index: int) -> u32 {
    if index == 4 {
        3
    } else {
        1
    }
}

/// The next seed of the key stream: the seed times the multiplier plus the
/// increment, in 32 bits.
pub open spec fn ecd_next(index: int, seed: u32) -> u32 {
    seed.wrapping_mul(ecd_multiplier(index)).wrapping_add(ecd_increment(index))
}

/// The key table: six pairs of a multiplier and an increment, each a big-endian
/// 32-bit number.
pub fn rand_buffer_ecd() -> (r: [u8; 48])
    ensures
        forall|i: int|
            0 <= i < 6 ==> be_u32(r@, 8 * i) == ecd_multiplier(i) && be_u32(r@, 8 * i + 4)
                == ecd_increment(i),
{
    let r: [u8; 48] = [
        0x4A,
        0x4B,
        0x52,
        0x2E,
        0x00,
        0x00,
        0x00,
        0x01,
        0x00,
        0x01,
        0x0D,
        0xCD,
        0x00,
        0x00,
        0x00,
        0x01,
        0x00,
        0x01,
        0x0D,
        0xCD,
        0x00,
        0x00,
        0x00,
        0x01,
        0x00,
        0x01,
        0x0D,
        0xCD,
        0x00,
        0x00,
        0x00,
        0x01,
        0x00,
        0x19,
        0x66,
        0x0D,
        0x00,
        0x00,
        0x00,
        0x03,
        0x7D,
        0x2B,
        0x89,
        0xDD,
        0x00,
        0x00,
        0x00,
        0x01,
    ];
    assert forall|i: int| 0 <= i < 6 implies be_u32(r@, 8 * i) == ecd_multiplier(i) && be_u32(
        r@,
        8 * i + 4,
    ) == ecd_increment(i) by {
        if i == 0 {
        } else if i == 1 {
        } else if i == 2 {
        } else if i == 3 {
        } else if i == 4 {
        } else {
        }
    }
    r
}

/// The unsigned 32-bit value stored big-endian at `off`.
pub open spec fn be_u32(s: Seq<u8>, off: int) -> int {
    16777216 * (s[off] as int) + 65536 * (s[off + 1] as int) + 256 * (s[off + 2] as int) + (s[off
        + 3] as int)
}

/// Reads the big-endian `u32` at `offset`.
pub fn load_uint_32(buffer: &[u8], offset: usize) -> (r: u32)
    requires
        offset + 4 <= buffer.len(),
    ensures
        r as int == be_u32(buffer@, offset as int),
{
    16777216 * (buffer[offset] as u32) + 65536 * (buffer[offset + 1] as u32) + 256 * (buffer[offset
        + 2] as u32) + (buffer[offset + 3] as u32)
}

/// Advances the key stream: the seed becomes the next seed, which is also returned.
pub fn get_rnd_ecd(index: usize, seed: &mut u32) -> (r: u32)
    requires
        index < 6,
    ensures
        *final(seed) == ecd_next(index as int, *old(seed)),
        r == *final(seed),
{
    let table = rand_buffer_ecd();
    let multiplier_offset: usize = 8 * index;
    let increment_offset: usize = multiplier_offset + 4;
    let multiplier: u32 = load_uint_32(table.as_slice(), multiplier_offset);
    let increment: u32 = load_uint_32(table.as_slice(), increment_offset);
    *seed = seed.wrapping_mul(multiplier).wrapping_add(increment);
    *seed
}

/// The two registers after `rounds` rounds of the nibble mixer: in each round the
/// second register moves into the first and takes in the key and the old first
/// register, and the key loses its lowest nibble.
pub open spec fn mix(key: u32, r11: u32, r12: u32, rounds: nat) -> (u32, u32)
    decreases rounds,
{
    if rounds == 0 {
        (r11, r12)
    } else {
        mix(key >> 4, r12, (r12 ^ (key ^ r11)) & 0xFF, (rounds - 1) as nat)
    }
}

/// Runs the eight rounds of the nibble mixer.
fn mix_rounds(key: u32, r11: u32, r12: u32) -> (r: (u32, u32))
    ensures
        r == mix(key, r11, r12, 8),
{
    let mut xorpad: u32 = key;
    let mut a: u32 = r11;
    let mut b: u32 = r12;
    let mut k: u8 = 0;
    while k < 8
        invariant
            k <= 8,
            mix(key, r11, r12, 8) == mix(xorpad, a, b, (8 - k) as nat),
        decreases 8 - k,
    {
        let r10: u32 = xorpad ^ a;
        a = b;
        b = (b ^ r10) & 0xFF;
        xorpad = xorpad >> 4;
        k = k + 1;
    }
    (a, b)
}

/// The plain byte for the cipher byte `c`, with the key `key` and the plain byte
/// before it `r8`.
pub open spec fn ecd_decrypt_byte(key: u32, c: u8, r8: u8) -> u8 {
    let r11 = (c ^ r8) as u32;
    let r12 = (r11 >> 4) & 0xFF;
    let m = mix(key, r11, r12, 8);
    ((m.1 & 0xF) | ((m.0 & 0xF) << 4)) as u8
}

/// The cipher byte for the plain byte `d`, with the key `key` and the plain byte
/// before it `r8`.
pub open spec fn ecd_encrypt_byte(key: u32, d: u8, r8: u8) -> u8 {
    let m = mix(key, 0, 0, 8);
    let dig2 = (d as u32) ^ m.1;
    let dig1 = (((d as u32) >> 4) & 0xFF) ^ m.0 ^ dig2;
    (((dig2 & 0xF) | ((dig1 & 0xF) << 4)) as u8) ^ r8
}

/// The second register after each of the eight rounds, written out.
spec fn mixed(key: u32, r11: u32, r12: u32, round: int) -> u32 {
    let k1 = key >> 4;
    let k2 = k1 >> 4;
    let k3 = k2 >> 4;
    let k4 = k3 >> 4;
    let k5 = k4 >> 4;
    let k6 = k5 >> 4;
    let k7 = k6 >> 4;
    let b1 = (r12 ^ (key ^ r11)) & 0xFF;
    let b2 = (b1 ^ (k1 ^ r12)) & 0xFF;
    let b3 = (b2 ^ (k2 ^ b1)) & 0xFF;
    let b4 = (b3 ^ (k3 ^ b2)) & 0xFF;
    let b5 = (b4 ^ (k4 ^ b3)) & 0xFF;
    let b6 = (b5 ^ (k5 ^ b4)) & 0xFF;
    let b7 = (b6 ^ (k6 ^ b5)) & 0xFF;
    let b8 = (b7 ^ (k7 ^ b6)) & 0xFF;
    if round == 7 {
        b7
    } else {
        b8
    }
}

proof fn lemma_mix_unrolled(key: u32, r11: u32, r12: u32)
    ensures
        mix(key, r11, r12, 8) == (mixed(key, r11, r12, 7), mixed(key, r11, r12, 8)),
{
    reveal_with_fuel(mix, 9);
}

proof fn lemma_byte_round_trip_bits(key: u32, d: u8, r8: u8, c: u8, p: u8)
    by (bit_vector)
    requires
        c == ((((((d as u32) ^ mixed(key, 0, 0, 8)) & 0xF) | ((((((d as u32) >> 4) & 0xFF) ^ mixed(
            key,
            0,
            0,
            7,
        ) ^ ((d as u32) ^ mixed(key, 0, 0, 8))) & 0xF) << 4)) as u8) ^ r8),
        p == (((mixed(key, (c ^ r8) as u32, (((c ^ r8) as u32) >> 4) & 0xFF, 8) & 0xF) | ((mixed(
            key,
            (c ^ r8) as u32,
            (((c ^ r8) as u32) >> 4) & 0xFF,
            7,
        ) & 0xF) << 4)) as u8),
    ensures
        p == d,
{
}

/// Decrypting a byte that was encrypted with the same key and the same byte before
/// it gives the byte back.
pub proof fn lemma_byte_round_trip(key: u32, d: u8, r8: u8)
    ensures
        ecd_decrypt_byte(key, ecd_encrypt_byte(key, d, r8), r8) == d,
{
    let c = ecd_encrypt_byte(key, d, r8);
    let p = ecd_decrypt_byte(key, c, r8);
    lemma_mix_unrolled(key, 0, 0);
    lemma_mix_unrolled(key, (c ^ r8) as u32, (((c ^ r8) as u32) >> 4) & 0xFF);
    lemma_byte_round_trip_bits(key, d, r8, c, p);
}

/// The CRC-32 checksum of a byte sequence, as `crc32fast` computes it.
pub uninterp spec fn crc32_checksum(data: Seq<u8>) -> u32;

/// `crc32fast::hash`: the CRC-32 checksum of the slice, a function of its bytes
/// alone.
#[verifier::external_body]
fn crc32_hash(data: &[u8]) -> (r: u32)
    ensures
        r == crc32_checksum(data@),
{
    crc32fast::hash(data)
}

/// The seed that a checksum gives: its two halves swapped, the lowest bit set.
pub open spec fn ecd_seed(crc: u32) -> u32 {
    ((crc >> 16) | (crc << 16)) | 1
}

/// The plain text of `cipher`, byte by byte: the key stream advances once for each
/// byte, and each plain byte goes into the next.
pub open spec fn ecd_decrypt_stream(index: int, seed: u32, r8: u8, cipher: Seq<u8>) -> Seq<u8>
    decreases cipher.len(),
{
    if cipher.len() == 0 {
        Seq::empty()
    } else {
        let key = ecd_next(index, seed);
        let p = ecd_decrypt_byte(key, cipher[0], r8);
        seq![p] + ecd_decrypt_stream(index, key, p, cipher.skip(1))
    }
}

/// The cipher text of `plain`, byte by byte.
pub open spec fn ecd_encrypt_stream(index: int, seed: u32, r8: u8, plain: Seq<u8>) -> Seq<u8>
    decreases plain.len(),
{
    if plain.len() == 0 {
        Seq::empty()
    } else {
        let key = ecd_next(index, seed);
        let c = ecd_encrypt_byte(key, plain[0], r8);
        seq![c] + ecd_encrypt_stream(index, key, plain[0], plain.skip(1))
    }
}

/// Decrypting an encrypted stream from the same state gives the plain text back.
pub proof fn lemma_stream_round_trip(index: int, seed: u32, r8: u8, plain: Seq<u8>)
    ensures
        ecd_encrypt_stream(index, seed, r8, plain).len() == plain.len(),
        ecd_decrypt_stream(index, seed, r8, ecd_encrypt_stream(index, seed, r8, plain)) == plain,
    decreases plain.len(),
{
    if plain.len() > 0 {
        let key = ecd_next(index, seed);
        let c = ecd_encrypt_byte(key, plain[0], r8);
        let rest = ecd_encrypt_stream(index, key, plain[0], plain.skip(1));
        let all = ecd_encrypt_stream(index, seed, r8, plain);
        lemma_byte_round_trip(key, plain[0], r8);
        lemma_stream_round_trip(index, key, plain[0], plain.skip(1));
        assert(all.skip(1) =~= rest);
        assert(all[0] == c);
        assert(seq![plain[0]] + plain.skip(1) =~= plain);
    } else {
        assert(ecd_decrypt_stream(index, seed, r8, Seq::<u8>::empty()) =~= plain);
    }
}

/// The header that `buf` begins with, where it is long enough for one.
pub open spec fn ecd_header(buf: Seq<u8>) -> Option<EcdHeader> {
    if buf.len() < 16 {
        None
    } else {
        Some(
            EcdHeader {
                magic: u32_le(buf, 0) as u32,
                index: u16_le(buf, 4) as u16,
                version: u16_le(buf, 6) as u16,
                file_size: u32_le(buf, 8) as u32,
                crc32: u32_le(buf, 12) as u32,
            },
        )
    }
}

/// Whether the buffer begins with the ECD magic number.
pub open spec fn is_ecd(buf: Seq<u8>) -> bool {
    u32_le_or_zero(buf, 0) == ECD_MAGIC
}

/// What an ECD buffer decrypts to. The stored checksum seeds the key stream; it is
/// not compared with the checksum of the result.
pub open spec fn ecd_decrypt(buf: Seq<u8>) -> Result<Seq<u8>, EcdError> {
    match ecd_header(buf) {
        None => Err(EcdError::MalformedHeader),
        Some(header) => if header.magic != ECD_MAGIC || header.index >= 6 {
            Err(EcdError::MalformedHeader)
        } else if header.file_size > buf.len() - 16 {
            Err(EcdError::TruncatedPayload)
        } else {
            let first = ecd_next(header.index as int, ecd_seed(header.crc32));
            Ok(
                ecd_decrypt_stream(
                    header.index as int,
                    first,
                    first as u8,
                    buf.subrange(16, 16 + header.file_size),
                ),
            )
        },
    }
}

/// The ECD buffer for the plain text `plain` whose checksum is `crc`.
pub open spec fn ecd_encrypt(plain: Seq<u8>, crc: u32) -> Seq<u8> {
    let first = ecd_next(ECD_INDEX as int, ecd_seed(crc));
    u32_le_bytes(ECD_MAGIC) + u16_le_bytes(ECD_INDEX) + u16_le_bytes(ECD_VERSION) + u32_le_bytes(
        plain.len() as u32,
    ) + u32_le_bytes(crc) + ecd_encrypt_stream(ECD_INDEX as int, first, first as u8, plain)
}

/// Decrypting an encrypted buffer gives the plain text back, whatever checksum was
/// stored.
pub proof fn lemma_ecd_round_trip(plain: Seq<u8>, crc: u32)
    requires
        plain.len() <= u32::MAX,
    ensures
        is_ecd(ecd_encrypt(plain, crc)),
        ecd_encrypt(plain, crc).len() == 16 + plain.len(),
        ecd_decrypt(ecd_encrypt(plain, crc)) == Ok::<Seq<u8>, EcdError>(plain),
{
    let first = ecd_next(ECD_INDEX as int, ecd_seed(crc));
    let body = ecd_encrypt_stream(ECD_INDEX as int, first, first as u8, plain);
    let buf = ecd_encrypt(plain, crc);
    lemma_stream_round_trip(ECD_INDEX as int, first, first as u8, plain);
    assert(buf.subrange(0, 4) =~= u32_le_bytes(ECD_MAGIC));
    assert(buf.subrange(4, 6) =~= u16_le_bytes(ECD_INDEX));
    assert(buf.subrange(6, 8) =~= u16_le_bytes(ECD_VERSION));
    assert(buf.subrange(8, 12) =~= u32_le_bytes(plain.len() as u32));
    assert(buf.subrange(12, 16) =~= u32_le_bytes(crc));
    lemma_u32_le_at(buf, 0, ECD_MAGIC);
    lemma_u16_le_at(buf, 4, ECD_INDEX);
    lemma_u16_le_at(buf, 6, ECD_VERSION);
    lemma_u32_le_at(buf, 8, plain.len() as u32);
    lemma_u32_le_at(buf, 12, crc);
    assert(buf.subrange(16, 16 + plain.len() as int) =~= body);
}

/// Reads the header of an ECD buffer.
pub fn read_ecd_header(buffer: &[u8]) -> (r: Option<EcdHeader>)
    ensures
        r == ecd_header(buffer@),
{
    if buffer.len() < ECD_HEADER_LEN {
        return None;
    }
    Some(
        EcdHeader {
            magic: get_u32_le(buffer, 0),
            index: get_u16_le(buffer, 4),
            version: get_u16_le(buffer, 6),
            file_size: get_u32_le(buffer, 8),
            crc32: get_u32_le(buffer, 12),
        },
    )
}

/// Decrypts an ECD buffer.
pub fn decrypt_ecd(buffer: &[u8]) -> (r: Result<Vec<u8>, EcdError>)
    ensures
        match ecd_decrypt(buffer@) {
            Err(e) => r == Err::<Vec<u8>, EcdError>(e),
            Ok(o) => r is Ok && r.unwrap()@ == o,
        },
{
    let header = match read_ecd_header(buffer) {
        None => {
            return Err(EcdError::MalformedHeader);
        },
        Some(h) => h,
    };
    if header.magic != ECD_MAGIC || header.index >= 6 {
        return Err(EcdError::MalformedHeader);
    }
    let size: usize = header.file_size as usize;
    if size > buffer.len() - ECD_HEADER_LEN {
        return Err(EcdError::TruncatedPayload);
    }
    let index: usize = header.index as usize;
    let mut rnd: u32 = ((header.crc32 >> 16) | (header.crc32 << 16)) | 1;
    let mut xorpad: u32 = get_rnd_ecd(index, &mut rnd);
    let mut r8: u8 = xorpad as u8;
    let mut out_vec: Vec<u8> = Vec::new();
    let ghost cipher = buffer@.subrange(16, 16 + size);
    let ghost whole = ecd_decrypt_stream(index as int, rnd, r8, cipher);
    let mut i: usize = 0;
    assert(cipher.skip(0) =~= cipher);
    while i < size
        invariant
            i <= size,
            index < 6,
            size + 16 <= buffer.len(),
            cipher == buffer@.subrange(16, 16 + size),
            whole == out_vec@ + ecd_decrypt_stream(index as int, rnd, r8, cipher.skip(i as int)),
        decreases size - i,
    {
        xorpad = get_rnd_ecd(index, &mut rnd);
        let data: u8 = buffer[ECD_HEADER_LEN + i];
        let r11: u32 = (data ^ r8) as u32;
        let r12: u32 = (r11 >> 4) & 0xFF;
        let m = mix_rounds(xorpad, r11, r12);
        let ghost before = out_vec@;
        let ghost rest = cipher.skip(i as int);
        proof {
            let a: u32 = m.0;
            let b: u32 = m.1;
            assert(((b & 0xF) | ((a & 0xF) << 4)) <= 0xFF) by (bit_vector);
            assert(rest[0] == data);
            assert(rest.skip(1) =~= cipher.skip(i + 1));
        }
        r8 = ((m.1 & 0xF) | ((m.0 & 0xF) << 4)) as u8;
        out_vec.push(r8);
        proof {
            assert(before + (seq![r8] + ecd_decrypt_stream(
                index as int,
                rnd,
                r8,
                cipher.skip(i + 1),
            )) =~= out_vec@ + ecd_decrypt_stream(index as int, rnd, r8, cipher.skip(i + 1)));
        }
        i = i + 1;
    }
    assert(out_vec@ + Seq::<u8>::empty() =~= out_vec@);
    Ok(out_vec)
}

/// Encrypts `buffer`: the header with the checksum of the plain text, then the
/// cipher text. Decrypting the result gives `buffer` back.
pub fn encrypt_ecd(buffer: &[u8]) -> (out_buf: Vec<u8>)
    requires
        buffer.len() <= u32::MAX,
    ensures
        out_buf@ == ecd_encrypt(buffer@, crc32_checksum(buffer@)),
        is_ecd(out_buf@),
        ecd_decrypt(out_buf@) == Ok::<Seq<u8>, EcdError>(buffer@),
{
    let file_size: usize = buffer.len();
    let crc32: u32 = crc32_hash(buffer);
    let index: usize = ECD_INDEX as usize;
    let mut out_buf: Vec<u8> = Vec::new();
    push_u32_le(&mut out_buf, ECD_MAGIC);
    push_u16_le(&mut out_buf, ECD_INDEX);
    push_u16_le(&mut out_buf, ECD_VERSION);
    push_u32_le(&mut out_buf, file_size as u32);
    push_u32_le(&mut out_buf, crc32);
    let ghost head = out_buf@;
    let mut rnd: u32 = ((crc32 >> 16) | (crc32 << 16)) | 1;
    let mut xorpad: u32 = get_rnd_ecd(index, &mut rnd);
    let mut r8: u8 = xorpad as u8;
    let ghost plain = buffer@;
    let ghost whole = ecd_encrypt_stream(index as int, rnd, r8, plain);
    let mut i: usize = 0;
    assert(plain.skip(0) =~= plain);
    assert(out_buf@ =~= head + Seq::<u8>::empty());
    while i < file_size
        invariant
            i <= file_size,
            index == 4,
            file_size == buffer.len(),
            plain == buffer@,
            exists|done: Seq<u8>|
                #![trigger head + done]
                out_buf@ == head + done && whole == done + ecd_encrypt_stream(
                    index as int,
                    rnd,
                    r8,
                    plain.skip(i as int),
                ),
        decreases file_size - i,
    {
        let ghost done = choose|done: Seq<u8>|
            #![trigger head + done]
            out_buf@ == head + done && whole == done + ecd_encrypt_stream(
                index as int,
                rnd,
                r8,
                plain.skip(i as int),
            );
        let ghost prev = r8;
        xorpad = get_rnd_ecd(index, &mut rnd);
        let data: u8 = buffer[i];
        let m = mix_rounds(xorpad, 0, 0);
        let dig2: u32 = (data as u32) ^ m.1;
        let dig1: u32 = (((data as u32) >> 4) & 0xFF) ^ m.0 ^ dig2;
        proof {
            assert(((dig2 & 0xF) | ((dig1 & 0xF) << 4)) <= 0xFF) by (bit_vector);
        }
        let rr: u8 = (((dig2 & 0xF) | ((dig1 & 0xF) << 4)) as u8) ^ r8;
        out_buf.push(rr);
        r8 = data;
        proof {
            let rest = plain.skip(i as int);
            assert(rest[0] == data);
            assert(rest.skip(1) =~= plain.skip(i + 1));
            assert(rr == ecd_encrypt_byte(xorpad, data, prev));
            let done2 = done.push(rr);
            assert(out_buf@ =~= head + done2);
            assert(whole =~= done2 + ecd_encrypt_stream(
                index as int,
                rnd,
                r8,
                plain.skip(i + 1),
            ));
        }
        i = i + 1;
    }
    proof {
        let done = choose|done: Seq<u8>|
            #![trigger head + done]
            out_buf@ == head + done && whole == done + ecd_encrypt_stream(
                index as int,
                rnd,
                r8,
                plain.skip(i as int),
            );
        assert(done + Seq::<u8>::empty() =~= done);
        assert(out_buf@ =~= ecd_encrypt(plain, crc32));
        lemma_ecd_round_trip(plain, crc32);
    }
    out_buf
}

/// Whether the buffer begins with the ECD magic number.
pub fn is_buf_ecd(buffer: &[u8]) -> (r: bool)
    ensures
        r == is_ecd(buffer@),
{
    get_u32_le_or_zero(buffer, 0) == ECD_MAGIC
}

} // verus!
