use rsfrontier_core::mha::{
    decode_mha_archive, encode_mha_archive, is_buf_mha, mha_archive_fits,
    read_null_terminated_string,
};
use rsfrontier_core::simple_archive::ArchiveError;

const TWO: [u8; 71] = [
    0x6d, 0x68, 0x61, 0x01, 0x1f, 0x00, 0x00, 0x00, 0x02, 0x00, 0x00, 0x00, 0x1b, 0x00, 0x00, 0x00,
    0x04, 0x00, 0x00, 0x00, 0x05, 0x00, 0x0a, 0x00, 0x01, 0x02, 0x03, 0x61, 0x00, 0x62, 0x00, 0x00,
    0x00, 0x00, 0x00, 0x18, 0x00, 0x00, 0x00, 0x01, 0x00, 0x00, 0x00, 0x01, 0x00, 0x00, 0x00, 0x05,
    0x00, 0x00, 0x00, 0x02, 0x00, 0x00, 0x00, 0x19, 0x00, 0x00, 0x00, 0x02, 0x00, 0x00, 0x00, 0x02,
    0x00, 0x00, 0x00, 0x06, 0x00, 0x00, 0x00,
];

fn two() -> Vec<(String, Vec<u8>)> {
    vec![("a".to_string(), vec![0x01]), ("b".to_string(), vec![0x02, 0x03])]
}

fn word(buf: &[u8], at: usize) -> u32 {
    u32::from_le_bytes([buf[at], buf[at + 1], buf[at + 2], buf[at + 3]])
}

#[test]
fn two_files_give_the_known_archive() {
    assert_eq!(encode_mha_archive(two(), 5, 10), TWO.to_vec());
}

#[test]
fn the_header_of_two_files() {
    let packed = encode_mha_archive(two(), 5, 10);
    assert_eq!(word(&packed, 0), 23160941);
    assert_eq!(word(&packed, 8), 2);
    assert_eq!(u16::from_le_bytes([packed[20], packed[21]]), 5);
    assert_eq!(u16::from_le_bytes([packed[22], packed[23]]), 10);
    assert!(is_buf_mha(&packed));
}

#[test]
fn the_known_archive_gives_two_files_and_the_metadata() {
    let mut expected = two();
    expected.push((".metadata".to_string(), b"5,10".to_vec()));
    assert_eq!(decode_mha_archive(&TWO), Ok(expected));
}

#[test]
fn file_ids_count_up_from_the_first() {
    let packed = encode_mha_archive(two(), 65535, 0);
    let records = word(&packed, 4) as usize;
    assert_eq!(word(&packed, records + 16), 65535);
    assert_eq!(word(&packed, records + 36), 65536);
    assert_eq!(word(&packed, records + 8), word(&packed, records + 12));
    let files = decode_mha_archive(&packed).unwrap();
    assert_eq!(files[2], (".metadata".to_string(), b"65535,0".to_vec()));
}

#[test]
fn mha_round_trip() {
    let files = vec![
        ("tex/one.png".to_string(), vec![1u8; 300]),
        ("".to_string(), vec![]),
        ("näme ü.bin".to_string(), (0..=255u8).collect::<Vec<u8>>()),
        ("same".to_string(), vec![5]),
        ("same".to_string(), vec![6]),
    ];
    let packed = encode_mha_archive(files.clone(), 1000, 2000);
    let mut expected = files;
    expected.push((".metadata".to_string(), b"1000,2000".to_vec()));
    assert_eq!(decode_mha_archive(&packed), Ok(expected));
}

#[test]
fn an_archive_of_no_files_holds_the_metadata() {
    let packed = encode_mha_archive(Vec::new(), 0, 7);
    assert_eq!(packed.len(), 24);
    assert_eq!(
        decode_mha_archive(&packed),
        Ok(vec![(".metadata".to_string(), b"0,7".to_vec())])
    );
}

#[test]
fn a_name_with_a_zero_byte_is_cut_short() {
    let packed = encode_mha_archive(vec![("a\0b".to_string(), vec![1])], 1, 1);
    let files = decode_mha_archive(&packed).unwrap();
    assert_eq!(files[0], ("a".to_string(), vec![1]));
}

#[test]
fn the_mha_detector_looks_at_the_first_four_bytes() {
    assert!(is_buf_mha(&[0x6d, 0x68, 0x61, 0x01]));
    assert!(!is_buf_mha(&[0x6d, 0x68, 0x61]));
    assert!(!is_buf_mha(&[0x6d, 0x68, 0x61, 0x02]));
    assert!(!is_buf_mha(&[]));
}

#[test]
fn a_short_or_foreign_buffer_is_malformed() {
    assert_eq!(decode_mha_archive(&TWO[..23]), Err(ArchiveError::MalformedHeader));
    assert_eq!(decode_mha_archive(&[]), Err(ArchiveError::MalformedHeader));
    let mut foreign = TWO.to_vec();
    foreign[3] = 2;
    assert_eq!(decode_mha_archive(&foreign), Err(ArchiveError::MalformedHeader));
}

#[test]
fn a_record_beyond_the_buffer_is_truncated() {
    assert_eq!(decode_mha_archive(&TWO[..70]), Err(ArchiveError::TruncatedPayload));
    let mut more = TWO.to_vec();
    more[8] = 3;
    assert_eq!(decode_mha_archive(&more), Err(ArchiveError::TruncatedPayload));
}

#[test]
fn a_body_beyond_the_buffer_is_truncated() {
    let mut far = TWO.to_vec();
    far[31 + 8] = 0xff;
    assert_eq!(decode_mha_archive(&far), Err(ArchiveError::TruncatedPayload));
}

#[test]
fn a_name_without_an_end_is_bad() {
    let mut buf = TWO.to_vec();
    // the second name is looked for where no zero byte follows
    buf[51] = 43;
    for b in buf[70..].iter_mut() {
        *b = 1;
    }
    assert_eq!(decode_mha_archive(&buf), Err(ArchiveError::BadName));
    let mut outside = TWO.to_vec();
    outside[31] = 0xff;
    assert_eq!(decode_mha_archive(&outside), Err(ArchiveError::BadName));
}

#[test]
fn a_name_that_is_not_utf8_is_bad() {
    let mut buf = TWO.to_vec();
    buf[27] = 0xff;
    assert_eq!(decode_mha_archive(&buf), Err(ArchiveError::BadName));
}

#[test]
fn reading_a_string_up_to_its_zero_byte() {
    let buf = b"one\0two\0\xff\0end";
    assert_eq!(read_null_terminated_string(buf, 0), Ok("one".to_string()));
    assert_eq!(read_null_terminated_string(buf, 1), Ok("ne".to_string()));
    assert_eq!(read_null_terminated_string(buf, 3), Ok("".to_string()));
    assert_eq!(read_null_terminated_string(buf, 4), Ok("two".to_string()));
    assert_eq!(read_null_terminated_string(buf, 8), Err(ArchiveError::BadName));
    assert_eq!(read_null_terminated_string(buf, 10), Err(ArchiveError::BadName));
    assert_eq!(read_null_terminated_string(buf, 100), Err(ArchiveError::BadName));
}

#[test]
fn small_named_files_fit() {
    assert!(mha_archive_fits(&two()));
    assert!(mha_archive_fits(&Vec::new()));
}
