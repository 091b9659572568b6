//! The JPK compression container and its four payload codings.

use crate::endian::{
    get_u16_le, get_u32_le, get_u32_le_or_zero, lemma_u16_le_at, lemma_u32_le_at, push_u16_le,
    push_u32_le, u16_le, u16_le_bytes, u32_le, u32_le_bytes, u32_le_or_zero,
};
use crate::path::{append_bytes, extension, has_extension};
use crate::text::{decimal, lemma_decimal_valid, push_decimal, string_from_utf8};
use decode::{decode_jpk_huff, decode_jpk_huff_lz, decode_jpk_lz, decode_jpk_raw, raw_decode};
use encode::{encode_jpk_lz, lz_encode};
use huff_encode::{
    blank_huff, coded_with, encode_jpk_huff, encode_jpk_huff_lz, lemma_blank_stream, uniform,
};
use huff_tree::HuffmanNode;
use huff_spec::{huff_decode, huff_lz_decode};
use lz_spec::lz_decode;
use vstd::prelude::*;
use vstd::slice::slice_subrange;
use vstd::string::StringSliceAdditionalSpecFns;
use vstd::utf8::{encode_utf8, encode_utf8_valid_utf8, valid_utf8_concat};

pub mod bit_writer;
pub mod decode;
pub mod encode;
pub mod huff_build;
pub mod huff_encode;
pub mod huff_read;
pub mod huff_spec;
pub mod huff_tree;
pub mod lz_proof;
pub mod lz_spec;
pub mod pq;
pub mod source;

verus! {

/// Why a JPK buffer could not be decoded.
#[derive(Debug, Clone, Copy, PartialEq, Eq, Structural)]
pub enum JpkError {
    /// The header names a compression code other than 0, 2, 3 or 4.
    InvalidType(u16),
    /// The buffer is too short for its header, or a header field is out of range.
    MalformedHeader,
    /// The decoder needed a byte beyond the end of the payload.
    TruncatedPayload,
    /// The decoded length differs from the length that was declared.
    SizeMismatch,
    /// A back-reference points before the start of the output.
    BadBackReference,
}

impl JpkError {
    /// What the error says, as bytes: for a wrong code the code in decimal after a
    /// fixed text, else a fixed text.
    pub open spec fn message_bytes(self) -> Seq<u8> {
        match self {
            JpkError::InvalidType(val) => "Invalid JPK Type Found ".spec_bytes() + decimal(
                val as nat,
            ),
            JpkError::MalformedHeader => "Malformed JPK header".spec_bytes(),
            JpkError::TruncatedPayload => "Truncated JPK payload".spec_bytes(),
            JpkError::SizeMismatch => "JPK size mismatch".spec_bytes(),
            JpkError::BadBackReference => "JPK back-reference before the start".spec_bytes(),
        }
    }

    /// What the error says.
    pub fn message(&self) -> (r: String)
        ensures
            encode_utf8(r@) == self.message_bytes(),
    {
        let text: &str = match self {
            JpkError::InvalidType(_) => "Invalid JPK Type Found ",
            JpkError::MalformedHeader => "Malformed JPK header",
            JpkError::TruncatedPayload => "Truncated JPK payload",
            JpkError::SizeMismatch => "JPK size mismatch",
            JpkError::BadBackReference => "JPK back-reference before the start",
        };
        let mut bytes: Vec<u8> = vstd::slice::slice_to_vec(text.as_bytes());
        if let JpkError::InvalidType(val) = self {
            push_decimal(&mut bytes, *val as u32);
        }
        proof {
            encode_utf8_valid_utf8(text@);
            if let JpkError::InvalidType(val) = self {
                lemma_decimal_valid(val as nat);
                valid_utf8_concat(text.spec_bytes(), decimal(val as nat));
            }
        }
        match string_from_utf8(bytes.as_slice()) {
            Some(s) => s,
            None => String::new(),
        }
    }
}

/// The magic number that a JPK buffer begins with.
pub const JPK_MAGIC: u32 = 0x1A524B4A;

/// The version that is written into a header.
pub const JPK_VERSION: u16 = 264;

/// The length of the header, and the offset of the payload that is written into it.
pub const JPK_HEADER_LEN: u32 = 0x10;

/// The four payload codings.
#[derive(Debug, Clone, Copy, PartialEq, Eq, Structural)]
pub enum JpkType {
    /// The payload is the content: code 0.
    Raw,
    /// Huffman only: code 2.
    HuffmanRw,
    /// LZ only: code 3.
    Lz,
    /// LZ, then Huffman: code 4.
    Huffman,
}

impl JpkType {
    /// The coding that a code stands for.
    pub open spec fn of_code(value: u16) -> Option<JpkType> {
        if value == 0 {
            Some(JpkType::Raw)
        } else if value == 2 {
            Some(JpkType::HuffmanRw)
        } else if value == 3 {
            Some(JpkType::Lz)
        } else if value == 4 {
            Some(JpkType::Huffman)
        } else {
            None
        }
    }

    /// The code of a coding.
    pub open spec fn spec_code(self) -> u16 {
        match self {
            JpkType::Raw => 0,
            JpkType::HuffmanRw => 2,
            JpkType::Lz => 3,
            JpkType::Huffman => 4,
        }
    }

    /// The coding that `value` stands for; any code but 0, 2, 3 and 4 is an error.
    pub fn try_from(value: u16) -> (r: Result<JpkType, JpkError>)
        ensures
            match JpkType::of_code(value) {
                Some(t) => r == Ok::<JpkType, JpkError>(t),
                None => r == Err::<JpkType, JpkError>(JpkError::InvalidType(value)),
            },
    {
        if value == 0 {
            Ok(JpkType::Raw)
        } else if value == 2 {
            Ok(JpkType::HuffmanRw)
        } else if value == 3 {
            Ok(JpkType::Lz)
        } else if value == 4 {
            Ok(JpkType::Huffman)
        } else {
            Err(JpkError::InvalidType(value))
        }
    }

    /// The code of the coding.
    pub fn code(self) -> (r: u16)
        ensures
            r == self.spec_code(),
            JpkType::of_code(r) == Some(self),
    {
        match self {
            JpkType::Raw => 0,
            JpkType::HuffmanRw => 2,
            JpkType::Lz => 3,
            JpkType::Huffman => 4,
        }
    }
}

/// The header of a JPK buffer.
#[derive(Debug, Clone, Copy)]
pub struct JpkHeader {
    /// The magic number as it was read.
    pub magic: u32,
    /// The format version.
    pub version: u16,
    /// The coding of the payload.
    pub comp_type: JpkType,
    /// Where the payload begins.
    pub start_offset: usize,
    /// The length of the decoded content.
    pub out_size: usize,
}

/// The header that `data` begins with. The coding is looked at before the last two
/// fields are read.
pub open spec fn jpk_header(data: Seq<u8>) -> Result<JpkHeader, JpkError> {
    if data.len() < 8 {
        Err(JpkError::MalformedHeader)
    } else {
        match JpkType::of_code(u16_le(data, 6) as u16) {
            None => Err(JpkError::InvalidType(u16_le(data, 6) as u16)),
            Some(comp_type) => if data.len() < 16 {
                Err(JpkError::MalformedHeader)
            } else {
                Ok(
                    JpkHeader {
                        magic: u32_le(data, 0) as u32,
                        version: u16_le(data, 4) as u16,
                        comp_type,
                        start_offset: u32_le(data, 8) as usize,
                        out_size: u32_le(data, 12) as usize,
                    },
                )
            },
        }
    }
}

/// What the payload decodes to under each coding. The Huffman-only coding does not
/// know where its content ends: the first `size` bytes of its stream are the
/// content, and a stream with fewer bytes is an error.
pub open spec fn jpk_payload_decode(comp_type: JpkType, payload: Seq<u8>, size: nat) -> Result<
    Seq<u8>,
    JpkError,
> {
    match comp_type {
        JpkType::Raw => raw_decode(payload, size),
        JpkType::HuffmanRw => match huff_decode(payload) {
            Err(e) => Err(e),
            Ok(o) => if o.len() < size {
                Err(JpkError::SizeMismatch)
            } else {
                Ok(o.take(size as int))
            },
        },
        JpkType::Lz => lz_decode(payload, size),
        JpkType::Huffman => huff_lz_decode(payload, size),
    }
}

/// What a JPK buffer decodes to.
pub open spec fn jpk_decode(data: Seq<u8>) -> Result<Seq<u8>, JpkError> {
    match jpk_header(data) {
        Err(e) => Err(e),
        Ok(header) => if header.magic != JPK_MAGIC || header.start_offset > data.len() {
            Err(JpkError::MalformedHeader)
        } else {
            jpk_payload_decode(
                header.comp_type,
                data.skip(header.start_offset as int),
                header.out_size as nat,
            )
        },
    }
}

/// The header that is written before a payload.
pub open spec fn jpk_header_bytes(comp_type: u16, out_size: u32) -> Seq<u8> {
    u32_le_bytes(JPK_MAGIC) + u16_le_bytes(JPK_VERSION) + u16_le_bytes(comp_type) + u32_le_bytes(
        JPK_HEADER_LEN,
    ) + u32_le_bytes(out_size)
}

/// Whether the buffer begins with the JPK magic number.
pub open spec fn is_jpk(buf: Seq<u8>) -> bool {
    u32_le_or_zero(buf, 0) == JPK_MAGIC
}

/// Reads the header of a JPK buffer.
pub fn parse_header(data: &[u8]) -> (r: Result<JpkHeader, JpkError>)
    ensures
        r == jpk_header(data@),
{
    if data.len() < 8 {
        return Err(JpkError::MalformedHeader);
    }
    let magic: u32 = get_u32_le(data, 0);
    let version: u16 = get_u16_le(data, 4);
    let comp_type = match JpkType::try_from(get_u16_le(data, 6)) {
        Err(e) => {
            return Err(e);
        },
        Ok(t) => t,
    };
    if data.len() < 16 {
        return Err(JpkError::MalformedHeader);
    }
    let start_offset: usize = get_u32_le(data, 8) as usize;
    let out_size: usize = get_u32_le(data, 12) as usize;
    Ok(JpkHeader { magic, version, comp_type, start_offset, out_size })
}

/// Decodes a JPK buffer: reads the header and decodes the payload by its coding.
pub fn decode_jpk(data: &[u8]) -> (r: Result<Vec<u8>, JpkError>)
    ensures
        match jpk_decode(data@) {
            Err(e) => r == Err::<Vec<u8>, JpkError>(e),
            Ok(o) => r is Ok && r.unwrap()@ == o,
        },
{
    let header = match parse_header(data) {
        Err(e) => {
            return Err(e);
        },
        Ok(h) => h,
    };
    if header.magic != JPK_MAGIC || header.start_offset > data.len() {
        return Err(JpkError::MalformedHeader);
    }
    let file_data = slice_subrange(data, header.start_offset, data.len());
    assert(file_data@ =~= data@.skip(header.start_offset as int));
    match header.comp_type {
        JpkType::Raw => decode_jpk_raw(file_data, header.out_size),
        JpkType::HuffmanRw => match decode_jpk_huff(file_data) {
            Err(e) => Err(e),
            Ok(o) => if o.len() < header.out_size {
                Err(JpkError::SizeMismatch)
            } else {
                let mut content = o;
                content.truncate(header.out_size);
                Ok(content)
            },
        },
        JpkType::Lz => decode_jpk_lz(file_data, header.out_size),
        JpkType::Huffman => decode_jpk_huff_lz(file_data, header.out_size),
    }
}

/// A buffer that is a header and then a payload has that header and that payload.
pub proof fn lemma_jpk_header_of_bytes(comp_type: u16, out_size: u32, payload: Seq<u8>)
    ensures
        jpk_header_bytes(comp_type, out_size).len() == 16,
        jpk_header(jpk_header_bytes(comp_type, out_size) + payload) == match JpkType::of_code(
            comp_type,
        ) {
            None => Err::<JpkHeader, JpkError>(JpkError::InvalidType(comp_type)),
            Some(t) => Ok::<JpkHeader, JpkError>(
                JpkHeader {
                    magic: JPK_MAGIC,
                    version: JPK_VERSION,
                    comp_type: t,
                    start_offset: 16,
                    out_size: out_size as usize,
                },
            ),
        },
        is_jpk(jpk_header_bytes(comp_type, out_size) + payload),
        (jpk_header_bytes(comp_type, out_size) + payload).skip(16) == payload,
{
    let h = jpk_header_bytes(comp_type, out_size);
    let d = h + payload;
    assert(d.subrange(0, 4) =~= u32_le_bytes(JPK_MAGIC));
    assert(d.subrange(4, 6) =~= u16_le_bytes(JPK_VERSION));
    assert(d.subrange(6, 8) =~= u16_le_bytes(comp_type));
    assert(d.subrange(8, 12) =~= u32_le_bytes(JPK_HEADER_LEN));
    assert(d.subrange(12, 16) =~= u32_le_bytes(out_size));
    lemma_u32_le_at(d, 0, JPK_MAGIC);
    lemma_u16_le_at(d, 4, JPK_VERSION);
    lemma_u16_le_at(d, 6, comp_type);
    lemma_u32_le_at(d, 8, JPK_HEADER_LEN);
    lemma_u32_le_at(d, 12, out_size);
    assert(d.skip(16) =~= payload);
}

/// `payload` is `data` under the coding `t`: `data` itself, its LZ stream, or the
/// Huffman coding of one of the two.
pub open spec fn is_jpk_payload(t: JpkType, data: Seq<u8>, payload: Seq<u8>) -> bool {
    match t {
        JpkType::Raw => payload == data,
        JpkType::Lz => payload == lz_encode(data),
        JpkType::HuffmanRw => exists|tree: Option<HuffmanNode>, tab: Seq<u16>| #[trigger]
            coded_with(data, tree, tab, payload),
        JpkType::Huffman => exists|tree: Option<HuffmanNode>, tab: Seq<u16>| #[trigger]
            coded_with(lz_encode(data), tree, tab, payload),
    }
}

/// What is Huffman-coded under the coding `t` is one byte value repeated, so that
/// the codes have no bits and the payload holds no stream.
pub open spec fn codes_are_empty(t: JpkType, data: Seq<u8>) -> bool {
    match t {
        JpkType::Raw => false,
        JpkType::Lz => false,
        JpkType::HuffmanRw => uniform(data),
        JpkType::Huffman => uniform(lz_encode(data)),
    }
}

/// The error of decoding a buffer whose payload holds no stream: the Huffman-only
/// coding finds fewer bytes than were declared, the Huffman-and-LZ coding no first
/// control bit.
pub open spec fn empty_codes_error(t: JpkType) -> JpkError {
    if t == JpkType::HuffmanRw {
        JpkError::SizeMismatch
    } else {
        JpkError::TruncatedPayload
    }
}

/// Decoding a JPK buffer gives its content back, unless what was Huffman-coded is
/// one byte value repeated.
pub proof fn lemma_jpk_round_trip(data: Seq<u8>, t: JpkType, payload: Seq<u8>)
    requires
        data.len() <= u32::MAX,
        is_jpk_payload(t, data, payload),
    ensures
        is_jpk(jpk_header_bytes(t.spec_code(), data.len() as u32) + payload),
        jpk_header(jpk_header_bytes(t.spec_code(), data.len() as u32) + payload) is Ok,
        !codes_are_empty(t, data) ==> jpk_decode(
            jpk_header_bytes(t.spec_code(), data.len() as u32) + payload,
        ) == Ok::<Seq<u8>, JpkError>(data),
        codes_are_empty(t, data) ==> payload == blank_huff() && jpk_decode(
            jpk_header_bytes(t.spec_code(), data.len() as u32) + payload,
        ) == Err::<Seq<u8>, JpkError>(empty_codes_error(t)),
{
    let n = data.len();
    lemma_jpk_header_of_bytes(t.spec_code(), n as u32, payload);
    lemma_blank_stream();
    match t {
        JpkType::Raw => {},
        JpkType::Lz => {
            encode::lemma_lz_round_trip(data);
        },
        JpkType::HuffmanRw => {
            let (tree, tab) = choose|tree: Option<HuffmanNode>, tab: Seq<u16>| #[trigger]
                coded_with(data, tree, tab, payload);
            match tree {
                None => {
                    assert(huff_spec::huff_stream(payload).take(0) =~= data);
                },
                Some(x) => {
                    huff_encode::lemma_huff_round_trip(data, x, tab, payload);
                },
            }
        },
        JpkType::Huffman => {
            let lz = lz_encode(data);
            let (tree, tab) = choose|tree: Option<HuffmanNode>, tab: Seq<u16>| #[trigger]
                coded_with(lz, tree, tab, payload);
            if uniform(lz) {
                huff_encode::lemma_huff_round_trip(lz, tree.unwrap(), tab, payload);
                encode::lemma_lz_round_trip(data);
                assert(lz_spec::lz_bit(Seq::<u8>::empty(), lz_spec::lz_start()) is None);
                assert(n > 0) by {
                    if n == 0 {
                        assert(lz_spec::lz_run(lz, lz_spec::lz_start(), Seq::empty(), 0) is Ok);
                    }
                }
            } else {
                huff_encode::lemma_huff_lz_round_trip(data, tree, tab, payload);
            }
        },
    }
}

/// The length that the JPK buffer of a content of `n` bytes does not exceed,
/// whatever the coding.
pub open spec fn jpk_max_len(n: nat) -> int {
    16 + 1022 + 64 * n as int
}

/// What holds of the JPK buffer `out` that was made of `data` with the coding `t`:
/// it is the header with the code and the length of `data`, then `data` under the
/// coding. Decoding it gives `data` back, unless what was Huffman-coded is one byte
/// value repeated: the payload is then the blank one and decoding fails.
#[verifier::opaque]
pub open spec fn is_jpk_of(out: Seq<u8>, data: Seq<u8>, t: JpkType) -> bool {
    &&& 16 <= out.len() <= jpk_max_len(data.len())
    &&& out.take(16) == jpk_header_bytes(t.spec_code(), data.len() as u32)
    &&& is_jpk_payload(t, data, out.skip(16))
    &&& is_jpk(out)
    &&& !codes_are_empty(t, data) ==> jpk_decode(out) == Ok::<Seq<u8>, JpkError>(data)
    &&& codes_are_empty(t, data) ==> out.skip(16) == blank_huff() && jpk_decode(out) == Err::<
        Seq<u8>,
        JpkError,
    >(empty_codes_error(t))
}

/// Packs `data` into a JPK buffer with the coding that `comp_type` stands for: the
/// header, then the encoded payload. A code that stands for no coding is an error.
pub fn create_jpk(data: &[u8], comp_type: u16) -> (r: Result<Vec<u8>, JpkError>)
    requires
        data.len() <= u32::MAX,
    ensures
        match JpkType::of_code(comp_type) {
            None => r == Err::<Vec<u8>, JpkError>(JpkError::InvalidType(comp_type)),
            Some(t) => r is Ok && is_jpk_of(r.unwrap()@, data@, t),
        },
{
    let kind = match JpkType::try_from(comp_type) {
        Err(e) => {
            return Err(e);
        },
        Ok(t) => t,
    };
    let out_size: u32 = data.len() as u32;
    let mut out_vec: Vec<u8> = Vec::new();
    push_u32_le(&mut out_vec, JPK_MAGIC);
    push_u16_le(&mut out_vec, JPK_VERSION);
    push_u16_le(&mut out_vec, comp_type);
    push_u32_le(&mut out_vec, JPK_HEADER_LEN);
    push_u32_le(&mut out_vec, out_size);
    let packed_buf: Vec<u8> = match kind {
        JpkType::Raw => vstd::slice::slice_to_vec(data),
        JpkType::HuffmanRw => encode_jpk_huff(data),
        JpkType::Lz => encode_jpk_lz(data),
        JpkType::Huffman => encode_jpk_huff_lz(data),
    };
    append_bytes(&mut out_vec, packed_buf.as_slice());
    proof {
        let payload = packed_buf@;
        lemma_jpk_header_of_bytes(comp_type, out_size, payload);
        let h = jpk_header_bytes(comp_type, out_size);
        assert(out_vec@ =~= h + payload);
        assert(out_vec@.take(16) =~= h);
        assert(out_vec@.skip(16) =~= payload);
        lemma_jpk_round_trip(data@, kind, payload);
        reveal(is_jpk_of);
    }
    Ok(out_vec)
}

/// Whether the buffer begins with the JPK magic number.
pub fn is_buf_jpk(buffer: &[u8]) -> (r: bool)
    ensures
        r == is_jpk(buffer@),
{
    get_u32_le_or_zero(buffer, 0) == JPK_MAGIC
}

/// The extensions of the files that are compressed when a directory is packed.
pub open spec fn jpk_extension(ext: Seq<u8>) -> bool {
    ext == seq![0x62u8, 0x69u8, 0x6eu8] || ext == seq![0x66u8, 0x6du8, 0x6fu8, 0x64u8] || ext
        == seq![0x66u8, 0x73u8, 0x6bu8, 0x6cu8]
}

/// A file with this path is compressed when its directory is packed: its
/// extension is `bin`, `fmod` or `fskl`.
#[verifier::opaque]
pub open spec fn wants_jpk(path: Seq<u8>) -> bool {
    extension(path) matches Some(ext) && jpk_extension(ext)
}

/// Whether a file with this path is compressed when its directory is packed: its
/// extension is `bin`, `fmod` or `fskl`.
pub fn should_jpk_compress(path: &str) -> (r: bool)
    ensures
        r == wants_jpk(path.spec_bytes()),
{
    reveal(wants_jpk);
    let bytes = path.as_bytes();
    let bin: [u8; 3] = [0x62, 0x69, 0x6e];
    let fmod: [u8; 4] = [0x66, 0x6d, 0x6f, 0x64];
    let fskl: [u8; 4] = [0x66, 0x73, 0x6b, 0x6c];
    assert(bin@ =~= seq![0x62u8, 0x69u8, 0x6eu8]);
    assert(fmod@ =~= seq![0x66u8, 0x6du8, 0x6fu8, 0x64u8]);
    assert(fskl@ =~= seq![0x66u8, 0x73u8, 0x6bu8, 0x6cu8]);
    has_extension(bytes, bin.as_slice()) || has_extension(bytes, fmod.as_slice()) || has_extension(
        bytes,
        fskl.as_slice(),
    )
}

} // verus!
