//! Text in byte buffers: UTF-8 strings and decimal numbers.

use vstd::prelude::*;
use crate::path::{
    file_name, has_file_name, join, lemma_last_index_of, name_start, stem_len, with_extension, DOT,
    SEPARATOR,
};
use vstd::utf8::{
    encode_utf8, encode_utf8_valid_utf8, is_ascii_chars, is_ascii_chars_encode_utf8,
    is_char_boundary_iff_not_is_continuation_byte, valid_utf8, valid_utf8_concat, valid_utf8_split,
};

verus! {

/// `String::from_utf8`: the string whose UTF-8 encoding the bytes are, or nothing
/// where the bytes are not valid UTF-8.
#[verifier::external_body]
pub(crate) fn string_from_utf8(bytes: &[u8]) -> (r: Option<String>)
    ensures
        r is Some <==> valid_utf8(bytes@),
        r matches Some(s) ==> encode_utf8(s@) == bytes@,
{
    String::from_utf8(bytes.to_vec()).ok()
}

/// The ASCII digit for `d`.
pub open spec fn digit(d: int) -> u8 {
    (0x30 + d) as u8
}

/// The decimal digits of `n`, without leading zeros.
pub open spec fn decimal(n: nat) -> Seq<u8>
    decreases n,
{
    if n < 10 {
        seq![digit(n as int)]
    } else {
        decimal(n / 10).push(digit((n % 10) as int))
    }
}

/// The decimal digits of `n`, with zeros before them up to four digits.
pub open spec fn decimal4(n: nat) -> Seq<u8> {
    if n < 10 {
        seq![digit(0), digit(0), digit(0), digit(n as int)]
    } else if n < 100 {
        seq![digit(0), digit(0)] + decimal(n)
    } else if n < 1000 {
        seq![digit(0)] + decimal(n)
    } else {
        decimal(n)
    }
}

/// Appends the decimal digits of `n`.
pub fn push_decimal(out: &mut Vec<u8>, n: u32)
    ensures
        final(out)@ == old(out)@ + decimal(n as nat),
    decreases n,
{
    if n < 10 {
        out.push(0x30 + n as u8);
        assert(out@ =~= old(out)@ + decimal(n as nat));
    } else {
        push_decimal(out, n / 10);
        out.push(0x30 + (n % 10) as u8);
        assert(out@ =~= old(out)@ + decimal(n as nat));
    }
}

/// Appends the decimal digits of `n`, with zeros before them up to four digits.
pub fn push_decimal4(out: &mut Vec<u8>, n: u32)
    ensures
        final(out)@ == old(out)@ + decimal4(n as nat),
{
    if n < 1000 {
        out.push(0x30);
    }
    if n < 100 {
        out.push(0x30);
    }
    if n < 10 {
        out.push(0x30);
    }
    push_decimal(out, n);
    assert(out@ =~= old(out)@ + decimal4(n as nat));
}

/// Bytes below 128 are valid UTF-8.
pub proof fn lemma_ascii_valid(bytes: Seq<u8>)
    requires
        forall|i: int| 0 <= i < bytes.len() ==> bytes[i] < 128,
    ensures
        valid_utf8(bytes),
{
    let chars = Seq::new(bytes.len(), |i: int| bytes[i] as char);
    assert(is_ascii_chars(chars));
    is_ascii_chars_encode_utf8(chars);
    encode_utf8_valid_utf8(chars);
    assert(encode_utf8(chars) =~= bytes);
}

/// A number in decimal is valid UTF-8.
pub proof fn lemma_decimal_valid(n: nat)
    ensures
        valid_utf8(decimal(n)),
        valid_utf8(decimal4(n)),
{
    lemma_decimal_ascii(n);
    lemma_ascii_valid(decimal(n));
    lemma_ascii_valid(decimal4(n));
}

proof fn lemma_decimal_ascii(n: nat)
    ensures
        forall|i: int| 0 <= i < decimal(n).len() ==> decimal(n)[i] < 128,
    decreases n,
{
    if n >= 10 {
        lemma_decimal_ascii(n / 10);
        let front = decimal(n / 10);
        assert forall|i: int| 0 <= i < decimal(n).len() implies decimal(n)[i] < 128 by {
            if i < front.len() {
                assert(decimal(n)[i] == front[i]);
            }
        }
    }
}

/// Putting a component after a path keeps it valid UTF-8.
pub proof fn lemma_join_valid(base: Seq<u8>, name: Seq<u8>)
    requires
        valid_utf8(base),
        valid_utf8(name),
    ensures
        valid_utf8(join(base, name)),
{
    lemma_ascii_valid(seq![SEPARATOR]);
    valid_utf8_concat(base, name);
    valid_utf8_concat(base, seq![SEPARATOR]);
    valid_utf8_concat(base + seq![SEPARATOR], name);
}

/// Replacing the extension of a path keeps it valid UTF-8.
pub proof fn lemma_with_extension_valid(p: Seq<u8>, ext: Seq<u8>)
    requires
        valid_utf8(p),
        valid_utf8(ext),
    ensures
        valid_utf8(with_extension(p, ext)),
{
    if has_file_name(p) {
        let name = file_name(p);
        lemma_last_index_of(p, SEPARATOR);
        lemma_last_index_of(name, DOT);
        let k = name_start(p) + stem_len(name);
        let kept = p.take(k);
        if k < p.len() {
            assert(p[k] == name[stem_len(name)]);
            is_char_boundary_iff_not_is_continuation_byte(p, k);
            valid_utf8_split(p, k);
            assert(p.subrange(0, k) =~= kept);
        } else {
            assert(kept =~= p);
        }
        lemma_ascii_valid(seq![DOT]);
        valid_utf8_concat(kept, seq![DOT]);
        valid_utf8_concat(kept + seq![DOT], ext);
    }
}

} // verus!
