//! File extensions found from the leading bytes of a buffer.

use crate::endian::{get_u32_le_or_zero, u32_le_or_zero};
use vstd::prelude::*;
use vstd::utf8::{encode_utf8, is_ascii_chars_encode_utf8};

verus! {

/// The extension that belongs to a known leading magic number.
pub open spec fn extension_of_magic(magic: u32) -> Option<Seq<char>> {
    if magic == 542327876 {
        Some("dds"@)
    } else if magic == 0x000B0000 {
        Some("ftxt"@)
    } else if magic == 846751303 {
        Some("gfx2"@)
    } else if magic == 0x1A524B4A {
        Some("jkr"@)
    } else if magic == 0x5367674F {
        Some("ogg"@)
    } else if magic == 7302512 {
        Some("pmo"@)
    } else if magic == 0x474e5089 {
        Some("png"@)
    } else if magic == 1213027374 {
        Some("tmh"@)
    } else {
        None
    }
}

/// A model file: the first word is 1 and the word at offset 8 is the buffer's length.
pub open spec fn is_fmod(buf: Seq<u8>) -> bool {
    u32_le_or_zero(buf, 0) == 1 && u32_le_or_zero(buf, 8) == buf.len()
}

/// A skeleton file: the first word is `0xC0000000` and the word at offset 8 is the
/// buffer's length.
pub open spec fn is_fskl(buf: Seq<u8>) -> bool {
    u32_le_or_zero(buf, 0) == 0xC0000000 && u32_le_or_zero(buf, 8) == buf.len()
}

/// The extension of a buffer: by magic number first, then by the two structural
/// tests, else `bin`.
pub open spec fn extension_of_buf(buf: Seq<u8>) -> Seq<char> {
    match extension_of_magic(u32_le_or_zero(buf, 0) as u32) {
        Some(ext) => ext,
        None => if is_fskl(buf) {
            "fskl"@
        } else if is_fmod(buf) {
            "fmod"@
        } else {
            "bin"@
        },
    }
}

/// Looks a magic number up in the table of known formats.
pub fn get_extension(magic: u32) -> (r: Option<&'static str>)
    ensures
        r is Some <==> extension_of_magic(magic) is Some,
        r matches Some(ext) ==> Some(ext@) == extension_of_magic(magic),
{
    if magic == 542327876 {
        Some("dds")
    } else if magic == 0x000B0000 {
        Some("ftxt")
    } else if magic == 846751303 {
        Some("gfx2")
    } else if magic == 0x1A524B4A {
        Some("jkr")
    } else if magic == 0x5367674F {
        Some("ogg")
    } else if magic == 7302512 {
        Some("pmo")
    } else if magic == 0x474e5089 {
        Some("png")
    } else if magic == 1213027374 {
        Some("tmh")
    } else {
        None
    }
}

/// Whether the buffer has the shape of a model file.
pub fn is_file_fmod(buf: &[u8]) -> (r: bool)
    ensures
        r == is_fmod(buf@),
{
    let header: u32 = get_u32_le_or_zero(buf, 0);
    if header != 1 {
        return false;
    }
    let file_len: u32 = get_u32_le_or_zero(buf, 8);
    file_len as usize == buf.len()
}

/// Whether the buffer has the shape of a skeleton file.
pub fn is_file_fskl(buf: &[u8]) -> (r: bool)
    ensures
        r == is_fskl(buf@),
{
    let header: u32 = get_u32_le_or_zero(buf, 0);
    if header != 0xC0000000 {
        return false;
    }
    let file_len: u32 = get_u32_le_or_zero(buf, 8);
    file_len as usize == buf.len()
}

/// The extension to give a buffer of unknown origin.
pub fn find_buf_extension(buf: &[u8]) -> (r: &'static str)
    ensures
        r@ == extension_of_buf(buf@),
{
    if let Some(ext) = get_extension(get_u32_le_or_zero(buf, 0)) {
        return ext;
    }
    if is_file_fskl(buf) {
        return "fskl";
    }
    if is_file_fmod(buf) {
        return "fmod";
    }
    "bin"
}

/// An extension has at most four bytes.
pub proof fn lemma_extension_len(buf: Seq<u8>)
    ensures
        encode_utf8(extension_of_buf(buf)).len() <= 4,
{
    reveal_strlit("dds");
    reveal_strlit("ftxt");
    reveal_strlit("gfx2");
    reveal_strlit("jkr");
    reveal_strlit("ogg");
    reveal_strlit("pmo");
    reveal_strlit("png");
    reveal_strlit("tmh");
    reveal_strlit("fskl");
    reveal_strlit("fmod");
    reveal_strlit("bin");
    is_ascii_chars_encode_utf8(extension_of_buf(buf));
}

} // verus!
