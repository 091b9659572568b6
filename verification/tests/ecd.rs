use rsfrontier_core::ecd::{
    decrypt_ecd, encrypt_ecd, get_rnd_ecd, is_buf_ecd, load_uint_32, rand_buffer_ecd,
    read_ecd_header, EcdError,
};

const HELLO_ENCRYPTED: [u8; 21] = [
    0x65, 0x63, 0x64, 0x1a, 0x04, 0x00, 0xfb, 0x7b, 0x05, 0x00, 0x00, 0x00, 0x36, 0x64, 0x44, 0xc1,
    0xec, 0xb8, 0xea, 0x0e, 0xbb,
];

#[test]
fn encrypting_hello_gives_the_known_bytes() {
    assert_eq!(encrypt_ecd(b"HELLO"), HELLO_ENCRYPTED.to_vec());
}

#[test]
fn decrypting_the_known_bytes_gives_hello() {
    assert_eq!(decrypt_ecd(&HELLO_ENCRYPTED), Ok(b"HELLO".to_vec()));
}

#[test]
fn the_header_carries_the_checksum_of_the_plain_text() {
    let header = read_ecd_header(&encrypt_ecd(b"HELLO")).unwrap();
    assert_eq!(header.magic, 442786661);
    assert_eq!(header.index, 4);
    assert_eq!(header.version, 31739);
    assert_eq!(header.file_size, 5);
    assert_eq!(header.crc32, 0xc1446436);
}

#[test]
fn encrypting_nothing_gives_a_bare_header() {
    let out = encrypt_ecd(&[]);
    assert_eq!(
        out,
        vec![0x65, 0x63, 0x64, 0x1a, 0x04, 0x00, 0xfb, 0x7b, 0, 0, 0, 0, 0, 0, 0, 0]
    );
    assert_eq!(decrypt_ecd(&out), Ok(vec![]));
}

#[test]
fn ecd_round_trip() {
    let mut plain: Vec<u8> = Vec::new();
    for i in 0..5000u32 {
        plain.push((i.wrapping_mul(2654435761) >> 13) as u8);
    }
    let cipher = encrypt_ecd(&plain);
    assert_eq!(cipher.len(), plain.len() + 16);
    assert!(is_buf_ecd(&cipher));
    assert_ne!(&cipher[16..], &plain[..]);
    assert_eq!(decrypt_ecd(&cipher), Ok(plain));
}

#[test]
fn ecd_round_trip_of_every_byte_value() {
    let plain: Vec<u8> = (0..=255u8).collect();
    assert_eq!(decrypt_ecd(&encrypt_ecd(&plain)), Ok(plain));
}

#[test]
fn the_ecd_detector_looks_at_the_first_four_bytes() {
    assert!(is_buf_ecd(&[0x65, 0x63, 0x64, 0x1a]));
    assert!(is_buf_ecd(&[0x65, 0x63, 0x64, 0x1a, 0xff]));
    assert!(!is_buf_ecd(&[0x65, 0x63, 0x64, 0x1b]));
    assert!(!is_buf_ecd(&[0x1a, 0x64, 0x63, 0x65]));
    assert!(!is_buf_ecd(&[0x65, 0x63, 0x64]));
    assert!(!is_buf_ecd(&[]));
}

#[test]
fn a_short_buffer_has_no_header() {
    assert_eq!(decrypt_ecd(&HELLO_ENCRYPTED[..15]), Err(EcdError::MalformedHeader));
    assert!(read_ecd_header(&HELLO_ENCRYPTED[..15]).is_none());
}

#[test]
fn a_wrong_magic_number_is_refused() {
    let mut buf = HELLO_ENCRYPTED.to_vec();
    buf[0] = 0x66;
    assert_eq!(decrypt_ecd(&buf), Err(EcdError::MalformedHeader));
}

#[test]
fn a_key_index_outside_the_table_is_refused() {
    let mut buf = HELLO_ENCRYPTED.to_vec();
    buf[4] = 6;
    assert_eq!(decrypt_ecd(&buf), Err(EcdError::MalformedHeader));
}

#[test]
fn a_payload_shorter_than_declared_is_refused() {
    assert_eq!(decrypt_ecd(&HELLO_ENCRYPTED[..20]), Err(EcdError::TruncatedPayload));
}

#[test]
fn bytes_after_the_payload_are_left_alone() {
    let mut buf = HELLO_ENCRYPTED.to_vec();
    buf.push(0x99);
    assert_eq!(decrypt_ecd(&buf), Ok(b"HELLO".to_vec()));
}

#[test]
fn other_key_indices_decrypt_too() {
    let mut buf = HELLO_ENCRYPTED.to_vec();
    buf[4] = 1;
    let plain = decrypt_ecd(&buf).unwrap();
    assert_eq!(plain.len(), 5);
    assert_ne!(plain, b"HELLO".to_vec());
}

#[test]
fn the_checksum_is_not_checked_on_decryption() {
    let mut buf = encrypt_ecd(b"HELLO");
    buf[12] ^= 0x01;
    let plain = decrypt_ecd(&buf).unwrap();
    assert_eq!(plain.len(), 5);
}

#[test]
fn the_key_table_holds_six_pairs() {
    let table = rand_buffer_ecd();
    assert_eq!(load_uint_32(&table, 0), 0x4A4B522E);
    assert_eq!(load_uint_32(&table, 4), 1);
    assert_eq!(load_uint_32(&table, 32), 0x0019660D);
    assert_eq!(load_uint_32(&table, 36), 3);
    assert_eq!(load_uint_32(&table, 40), 0x7D2B89DD);
}

#[test]
fn the_key_stream_wraps_around() {
    let mut seed: u32 = 1;
    assert_eq!(get_rnd_ecd(4, &mut seed), 0x0019660D + 3);
    assert_eq!(seed, 0x0019660D + 3);
    let mut big: u32 = 0xffff_ffff;
    let expected = 0xffff_ffffu32.wrapping_mul(0x0019660D).wrapping_add(3);
    assert_eq!(get_rnd_ecd(4, &mut big), expected);
    let mut other: u32 = 2;
    assert_eq!(get_rnd_ecd(0, &mut other), 0x4A4B522Eu32.wrapping_mul(2).wrapping_add(1));
}
