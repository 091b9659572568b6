use rsfrontier_core::jpk::{
    create_jpk, decode_jpk, is_buf_jpk, parse_header, should_jpk_compress, JpkError, JpkType,
};

fn sample(len: usize) -> Vec<u8> {
    let mut v: Vec<u8> = Vec::new();
    let mut x: u32 = 7;
    for _ in 0..len {
        x = x.wrapping_mul(1664525).wrapping_add(1013904223);
        v.push(((x >> 24) as u8) & 0x1f);
    }
    v
}

#[test]
fn the_raw_container_of_hello() {
    let packed = create_jpk(b"HELLO", 0).unwrap();
    assert_eq!(
        packed,
        vec![
            0x4a, 0x4b, 0x52, 0x1a, 0x08, 0x01, 0x00, 0x00, 0x10, 0x00, 0x00, 0x00, 0x05, 0x00,
            0x00, 0x00, b'H', b'E', b'L', b'L', b'O'
        ]
    );
    assert_eq!(decode_jpk(&packed), Ok(b"HELLO".to_vec()));
}

#[test]
fn the_lz_container_of_a_run() {
    let packed = create_jpk(b"AAAAAAAA", 3).unwrap();
    assert_eq!(&packed[..4], &[0x4a, 0x4b, 0x52, 0x1a]);
    assert_eq!(&packed[6..8], &[0x03, 0x00]);
    assert_eq!(&packed[12..16], &[0x08, 0x00, 0x00, 0x00]);
    assert_eq!(&packed[16..], &[0x09, 0x41, 0x41, 0x41, 0x41, 0x00]);
    assert_eq!(decode_jpk(&packed), Ok(b"AAAAAAAA".to_vec()));
}

#[test]
fn the_header_parses_with_the_written_constants() {
    for code in [0u16, 2, 3, 4] {
        let packed = create_jpk(b"some content", code).unwrap();
        let header = parse_header(&packed).unwrap();
        assert_eq!(header.magic, 0x1A524B4A);
        assert_eq!(header.magic, 441600842);
        assert_eq!(header.version, 264);
        assert_eq!(header.comp_type.code(), code);
        assert_eq!(header.start_offset, 16);
        assert_eq!(header.out_size, 12);
        assert!(is_buf_jpk(&packed));
    }
}

#[test]
fn container_round_trip() {
    let data = sample(2000);
    for code in [0u16, 2, 3, 4] {
        let packed = create_jpk(&data, code).unwrap();
        assert_eq!(decode_jpk(&packed), Ok(data.clone()));
    }
    for code in [0u16, 2, 3, 4] {
        let packed = create_jpk(b"", code).unwrap();
        assert_eq!(decode_jpk(&packed), Ok(vec![]));
    }
}

#[test]
fn the_huffman_only_container_cuts_the_stream_at_the_declared_size() {
    let exact = create_jpk(b"abababababababab", 2).unwrap();
    assert_eq!(decode_jpk(&exact), Ok(b"abababababababab".to_vec()));
    let mut filled = create_jpk(b"ab", 2).unwrap();
    assert_eq!(filled.len(), 16 + 1022 + 1);
    assert_eq!(decode_jpk(&filled), Ok(b"ab".to_vec()));
    filled[12] = 8;
    assert_eq!(decode_jpk(&filled).unwrap().len(), 8);
    filled[12] = 9;
    assert_eq!(decode_jpk(&filled), Err(JpkError::SizeMismatch));
}

#[test]
fn one_byte_value_cannot_be_huffman_coded() {
    let single = create_jpk(b"zzz", 2).unwrap();
    assert_eq!(single.len(), 16 + 1022);
    assert_eq!(decode_jpk(&single), Err(JpkError::SizeMismatch));
    let zero = create_jpk(&[0], 4).unwrap();
    assert_eq!(zero.len(), 16 + 1022);
    assert_eq!(decode_jpk(&zero), Err(JpkError::TruncatedPayload));
}

#[test]
fn codes_and_codings() {
    assert_eq!(JpkType::try_from(0), Ok(JpkType::Raw));
    assert_eq!(JpkType::try_from(2), Ok(JpkType::HuffmanRw));
    assert_eq!(JpkType::try_from(3), Ok(JpkType::Lz));
    assert_eq!(JpkType::try_from(4), Ok(JpkType::Huffman));
    assert_eq!(JpkType::try_from(1), Err(JpkError::InvalidType(1)));
    assert_eq!(JpkType::try_from(5), Err(JpkError::InvalidType(5)));
    assert_eq!(JpkType::Raw.code(), 0);
    assert_eq!(JpkType::HuffmanRw.code(), 2);
    assert_eq!(JpkType::Lz.code(), 3);
    assert_eq!(JpkType::Huffman.code(), 4);
}

#[test]
fn an_unknown_code_is_an_error() {
    assert_eq!(create_jpk(b"HELLO", 1), Err(JpkError::InvalidType(1)));
    assert_eq!(create_jpk(b"HELLO", 0xffff), Err(JpkError::InvalidType(0xffff)));
    let mut packed = create_jpk(b"HELLO", 0).unwrap();
    packed[6] = 7;
    assert_eq!(decode_jpk(&packed), Err(JpkError::InvalidType(7)));
    assert!(parse_header(&packed).is_err());
    assert_eq!(decode_jpk(&packed[..8]), Err(JpkError::InvalidType(7)));
}

#[test]
fn a_short_jpk_header_is_malformed() {
    let packed = create_jpk(b"HELLO", 0).unwrap();
    assert_eq!(decode_jpk(&packed[..7]), Err(JpkError::MalformedHeader));
    assert_eq!(decode_jpk(&packed[..15]), Err(JpkError::MalformedHeader));
    assert_eq!(decode_jpk(&[]), Err(JpkError::MalformedHeader));
}

#[test]
fn a_wrong_jpk_magic_number_is_malformed() {
    let mut packed = create_jpk(b"HELLO", 0).unwrap();
    packed[0] = 0x4b;
    assert!(!is_buf_jpk(&packed));
    assert_eq!(decode_jpk(&packed), Err(JpkError::MalformedHeader));
}

#[test]
fn a_payload_offset_beyond_the_buffer_is_malformed() {
    let mut packed = create_jpk(b"HELLO", 0).unwrap();
    packed[8] = 22;
    assert_eq!(decode_jpk(&packed), Err(JpkError::MalformedHeader));
    packed[8] = 21;
    packed[12] = 0;
    assert_eq!(decode_jpk(&packed), Ok(vec![]));
}

#[test]
fn a_wrong_declared_size_is_reported() {
    let mut raw = create_jpk(b"HELLO", 0).unwrap();
    raw[12] = 6;
    assert_eq!(decode_jpk(&raw), Err(JpkError::SizeMismatch));
    let mut lz = create_jpk(b"AAAAAAAA", 3).unwrap();
    lz[12] = 9;
    assert_eq!(decode_jpk(&lz), Err(JpkError::TruncatedPayload));
    lz[12] = 7;
    assert_eq!(decode_jpk(&lz), Err(JpkError::SizeMismatch));
}

#[test]
fn the_jpk_detector_looks_at_the_first_four_bytes() {
    assert!(is_buf_jpk(&[0x4a, 0x4b, 0x52, 0x1a]));
    assert!(!is_buf_jpk(&[0x4a, 0x4b, 0x52]));
    assert!(!is_buf_jpk(&[0x4a, 0x4b, 0x52, 0x1b, 0]));
    assert!(!is_buf_jpk(&[]));
}

#[test]
fn three_extensions_are_compressed() {
    assert!(should_jpk_compress("a.bin"));
    assert!(should_jpk_compress("dir/model.fmod"));
    assert!(should_jpk_compress("dir.d/bones.fskl"));
    assert!(should_jpk_compress("a.b.bin"));
    assert!(!should_jpk_compress("a.png"));
    assert!(!should_jpk_compress("a.BIN"));
    assert!(!should_jpk_compress("a.bin2"));
    assert!(!should_jpk_compress("bin"));
    assert!(!should_jpk_compress(".bin"));
    assert!(!should_jpk_compress("a.bin/b"));
    assert!(!should_jpk_compress("a.bin/"));
    assert!(!should_jpk_compress(""));
}

#[test]
fn errors_say_what_went_wrong() {
    assert_eq!(JpkError::InvalidType(7).message(), "Invalid JPK Type Found 7");
    assert_eq!(JpkError::InvalidType(65535).message(), "Invalid JPK Type Found 65535");
    assert_eq!(JpkError::MalformedHeader.message(), "Malformed JPK header");
    assert_eq!(JpkError::TruncatedPayload.message(), "Truncated JPK payload");
    assert_eq!(JpkError::SizeMismatch.message(), "JPK size mismatch");
    assert_eq!(JpkError::BadBackReference.message(), "JPK back-reference before the start");
}
