use rsfrontier_core::jpk::decode::{backref_to_out, decode_jpk_lz, decode_jpk_raw, decode_lz_from};
use rsfrontier_core::jpk::encode::{calculate_hash, encode_jpk_lz, find_longest_match, set_bit_flag};
use rsfrontier_core::jpk::source::{ByteCursor, ByteSource};
use rsfrontier_core::jpk::JpkError;
use std::collections::HashMap;

fn pattern(len: usize) -> Vec<u8> {
    let mut v: Vec<u8> = Vec::new();
    let mut x: u32 = 12345;
    for i in 0..len {
        x = x.wrapping_mul(1103515245).wrapping_add(12345);
        if i % 7 < 4 {
            v.push((x >> 16) as u8 & 0x03);
        } else {
            v.push((x >> 16) as u8);
        }
    }
    v
}

#[test]
fn a_literal_and_a_short_run() {
    assert_eq!(decode_jpk_lz(&[0x40, 0xAA, 0x00], 4), Ok(vec![0xAA, 0xAA, 0xAA, 0xAA]));
}

#[test]
fn a_reference_before_the_start_is_an_error() {
    assert_eq!(
        decode_jpk_lz(&[0x80, 0xAA, 0x40, 0x00], 4),
        Err(JpkError::BadBackReference)
    );
}

#[test]
fn nothing_is_read_for_size_zero() {
    assert_eq!(decode_jpk_lz(&[], 0), Ok(vec![]));
    assert_eq!(decode_jpk_lz(&[0xff, 0xff], 0), Ok(vec![]));
}

#[test]
fn a_stream_that_ends_early_is_truncated() {
    assert_eq!(decode_jpk_lz(&[], 1), Err(JpkError::TruncatedPayload));
    assert_eq!(decode_jpk_lz(&[0x00], 1), Err(JpkError::TruncatedPayload));
    assert_eq!(decode_jpk_lz(&[0x00, 0x41], 2), Err(JpkError::TruncatedPayload));
    assert_eq!(decode_jpk_lz(&[0x40, 0xAA], 4), Err(JpkError::TruncatedPayload));
}

#[test]
fn a_copy_that_overshoots_is_a_size_mismatch() {
    assert_eq!(decode_jpk_lz(&[0x40, 0xAA, 0x00], 3), Err(JpkError::SizeMismatch));
}

#[test]
fn a_long_reference_holds_its_length() {
    // literals 1 2 3, then long reference: length code 2 (four bytes), offset 2
    let stream = [0b0001_1000, 1, 2, 3, 0b0100_0000, 0x02];
    assert_eq!(decode_jpk_lz(&stream, 7), Ok(vec![1, 2, 3, 1, 2, 3, 1]));
}

#[test]
fn an_extended_reference_with_four_bits() {
    // literal 7, then long reference with length code 0, selector 0, four bits 0101: 15 bytes
    let stream = [0b0110_0101, 7, 0x00, 0x00];
    assert_eq!(decode_jpk_lz(&stream, 16), Ok(vec![7; 16]));
}

#[test]
fn an_extended_reference_with_a_length_byte() {
    // literal 9, then long reference with length code 0, selector 1, byte 4: 30 bytes
    let stream = [0b0111_0000, 9, 0x00, 0x00, 0x04];
    assert_eq!(decode_jpk_lz(&stream, 31), Ok(vec![9; 31]));
}

#[test]
fn a_run_of_raw_bytes() {
    // long reference with length code 0, selector 1, byte 0xFF, offset 1: 28 raw bytes
    let mut stream = vec![0b1110_0000, 0x00, 0x01, 0xFF];
    let raw: Vec<u8> = (100..128u8).collect();
    stream.extend_from_slice(&raw);
    assert_eq!(decode_jpk_lz(&stream, 28), Ok(raw.clone()));
    stream.pop();
    assert_eq!(decode_jpk_lz(&stream, 28), Err(JpkError::TruncatedPayload));
}

#[test]
fn a_copy_reads_what_it_has_just_written() {
    let mut out = vec![1u8, 2, 3];
    backref_to_out(&mut out, 0, 2);
    assert_eq!(out, vec![1, 2, 3, 3, 3]);
    backref_to_out(&mut out, 4, 6);
    assert_eq!(out, vec![1, 2, 3, 3, 3, 1, 2, 3, 3, 3, 1]);
    backref_to_out(&mut out, 1, 0);
    assert_eq!(out.len(), 11);
}

#[test]
fn the_decoder_stops_in_the_source_where_the_stream_ends() {
    let data = [0x40, 0xAA, 0x00, 0x55];
    let mut cursor = ByteCursor::new(&data);
    assert_eq!(decode_lz_from(&mut cursor, 4), Ok(vec![0xAA; 4]));
    assert_eq!(cursor.position(), 3);
    assert_eq!(cursor.next_byte(), Some(0x55));
    assert_eq!(cursor.next_byte(), None);
}

#[test]
fn the_encoder_gives_the_known_streams() {
    assert_eq!(encode_jpk_lz(b""), Vec::<u8>::new());
    assert_eq!(encode_jpk_lz(b"A"), vec![0x00, 0x41]);
    assert_eq!(encode_jpk_lz(b"AAAAAAAA"), vec![0x09, 0x41, 0x41, 0x41, 0x41, 0x00]);
    assert_eq!(
        encode_jpk_lz(b"abcabcabcabcabcabc"),
        vec![0x03, 0x61, 0x62, 0x63, 0x61, 0x62, 0x63, 0x00, 0x02, 0x10]
    );
    assert_eq!(
        encode_jpk_lz(&vec![b'x'; 300]),
        vec![0x0f, 0x78, 0x78, 0x78, 0x78, 0x00, 0x00, 0xfe, 0x98, 0x00, 0x00]
    );
}

#[test]
fn lz_round_trip_small() {
    for len in 0..40usize {
        let data = pattern(len);
        let packed = encode_jpk_lz(&data);
        assert_eq!(decode_jpk_lz(&packed, len), Ok(data));
    }
}

#[test]
fn lz_round_trip_beyond_the_window() {
    let mut data = pattern(9000);
    let again = data[100..700].to_vec();
    data.extend_from_slice(&again);
    data.extend_from_slice(&vec![0u8; 1000]);
    data.extend_from_slice(&pattern(9000));
    let packed = encode_jpk_lz(&data);
    assert!(packed.len() < data.len());
    assert_eq!(decode_jpk_lz(&packed, data.len()), Ok(data));
}

#[test]
fn lz_round_trip_of_one_value() {
    let data = vec![0u8; 5000];
    let packed = encode_jpk_lz(&data);
    assert!(packed.len() < 100);
    assert_eq!(decode_jpk_lz(&packed, data.len()), Ok(data));
}

#[test]
fn bytes_after_the_stream_do_not_matter() {
    let data = pattern(500);
    let mut packed = encode_jpk_lz(&data);
    packed.extend_from_slice(&[1, 2, 3, 4, 5, 6, 7]);
    assert_eq!(decode_jpk_lz(&packed, data.len()), Ok(data));
}

#[test]
fn the_key_of_three_bytes() {
    assert_eq!(calculate_hash(&[1, 2, 3]), 0x030201);
    assert_eq!(calculate_hash(&[0xff, 0, 0x80, 9]), 0x8000ff);
    assert_eq!(calculate_hash(&[1, 2]), 0);
    assert_eq!(calculate_hash(&[]), 0);
}

#[test]
fn the_match_runs_as_far_as_the_bytes_agree() {
    let data = b"abcdefabcdeXabcdef";
    let mut chain: HashMap<u32, usize> = HashMap::new();
    chain.insert(calculate_hash(b"abc"), 0);
    assert_eq!(find_longest_match(data, &chain, &data[6..], 3), Some((0, 5)));
    assert_eq!(find_longest_match(data, &chain, &data[12..], 3), Some((0, 6)));
    assert_eq!(find_longest_match(data, &chain, &data[7..], 3), None);
    assert_eq!(find_longest_match(data, &chain, &data[16..], 3), None);
    assert_eq!(find_longest_match(&data[..2], &chain, &data[6..], 3), None);
}

#[test]
fn a_match_may_run_into_itself() {
    let data = [5u8; 10];
    let mut chain: HashMap<u32, usize> = HashMap::new();
    chain.insert(calculate_hash(&data[..3]), 3);
    assert_eq!(find_longest_match(&data, &chain, &data[4..], 3), Some((3, 6)));
}

#[test]
fn flag_bits_fill_a_byte_from_the_top() {
    let mut out: Vec<u8> = Vec::new();
    let mut flag_idx: usize = 0;
    let mut shift_idx: i8 = 0;
    set_bit_flag(&mut out, &mut flag_idx, &mut shift_idx, 1);
    assert_eq!(out, vec![0x80]);
    assert_eq!((flag_idx, shift_idx), (0, 7));
    set_bit_flag(&mut out, &mut flag_idx, &mut shift_idx, 0);
    set_bit_flag(&mut out, &mut flag_idx, &mut shift_idx, 1);
    assert_eq!(out, vec![0xA0]);
    out.push(0x77);
    for _ in 0..5 {
        set_bit_flag(&mut out, &mut flag_idx, &mut shift_idx, 1);
    }
    assert_eq!(out, vec![0xBF, 0x77]);
    assert_eq!(shift_idx, 0);
    set_bit_flag(&mut out, &mut flag_idx, &mut shift_idx, 0);
    assert_eq!(out, vec![0xBF, 0x77, 0x00]);
    assert_eq!((flag_idx, shift_idx), (2, 7));
}

#[test]
fn the_raw_coding_is_the_content() {
    assert_eq!(decode_jpk_raw(b"HELLO", 5), Ok(b"HELLO".to_vec()));
    assert_eq!(decode_jpk_raw(b"HELLO", 4), Err(JpkError::SizeMismatch));
    assert_eq!(decode_jpk_raw(b"HELLO", 6), Err(JpkError::SizeMismatch));
    assert_eq!(decode_jpk_raw(b"", 0), Ok(vec![]));
}
