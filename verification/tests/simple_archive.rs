use rsfrontier_core::simple_archive::{
    decode_simple_archive, encode_simple_archive, is_buf_simple_archive, simple_archive_fits,
    ArchiveError,
};

const THREE: [u8; 37] = [
    0x03, 0x00, 0x00, 0x00, 0x1c, 0x00, 0x00, 0x00, 0x03, 0x00, 0x00, 0x00, 0x1f, 0x00, 0x00, 0x00,
    0x03, 0x00, 0x00, 0x00, 0x22, 0x00, 0x00, 0x00, 0x03, 0x00, 0x00, 0x00, 0x41, 0x41, 0x41, 0x42,
    0x42, 0x42, 0x43, 0x43, 0x43,
];

fn three() -> Vec<Vec<u8>> {
    vec![b"AAA".to_vec(), b"BBB".to_vec(), b"CCC".to_vec()]
}

#[test]
fn three_files_give_the_known_archive() {
    assert_eq!(encode_simple_archive(&three()), THREE.to_vec());
}

#[test]
fn the_known_archive_gives_three_files() {
    assert_eq!(decode_simple_archive(&THREE), Ok(three()));
    assert!(is_buf_simple_archive(&THREE));
}

#[test]
fn an_archive_of_no_files() {
    let packed = encode_simple_archive(&[]);
    assert_eq!(packed, vec![0, 0, 0, 0]);
    assert_eq!(decode_simple_archive(&packed), Ok(vec![]));
    assert!(is_buf_simple_archive(&packed));
}

#[test]
fn simple_round_trip() {
    let files = vec![vec![], vec![1u8; 1000], vec![], (0..=255u8).collect::<Vec<u8>>(), vec![9]];
    let packed = encode_simple_archive(&files);
    assert_eq!(packed.len(), 4 + 8 * 5 + 1000 + 256 + 1);
    assert!(is_buf_simple_archive(&packed));
    assert_eq!(decode_simple_archive(&packed), Ok(files));
}

#[test]
fn decoding_and_encoding_gives_the_archive_back() {
    let files = decode_simple_archive(&THREE).unwrap();
    assert_eq!(encode_simple_archive(&files), THREE.to_vec());
}

#[test]
fn files_may_lie_anywhere_in_the_buffer() {
    // two files that share the same three bytes
    let buf = [2, 0, 0, 0, 20, 0, 0, 0, 3, 0, 0, 0, 20, 0, 0, 0, 3, 0, 0, 0, 7, 8, 9];
    assert_eq!(decode_simple_archive(&buf), Ok(vec![vec![7, 8, 9], vec![7, 8, 9]]));
    assert!(!is_buf_simple_archive(&buf));
}

#[test]
fn a_buffer_without_a_count_is_malformed() {
    assert_eq!(decode_simple_archive(&[]), Err(ArchiveError::MalformedHeader));
    assert_eq!(decode_simple_archive(&[1, 0, 0]), Err(ArchiveError::MalformedHeader));
    assert!(!is_buf_simple_archive(&[]));
    assert!(!is_buf_simple_archive(&[0, 0, 0]));
}

#[test]
fn a_table_that_does_not_fit_is_malformed() {
    assert_eq!(decode_simple_archive(&THREE[..27]), Err(ArchiveError::MalformedHeader));
    assert!(!is_buf_simple_archive(&THREE[..27]));
    assert_eq!(
        decode_simple_archive(&[0xff, 0xff, 0xff, 0xff, 0, 0]),
        Err(ArchiveError::MalformedHeader)
    );
}

#[test]
fn a_file_beyond_the_buffer_is_truncated() {
    assert_eq!(decode_simple_archive(&THREE[..36]), Err(ArchiveError::TruncatedPayload));
    assert!(!is_buf_simple_archive(&THREE[..36]));
    let mut far = THREE.to_vec();
    far[7] = 0xff;
    assert_eq!(decode_simple_archive(&far), Err(ArchiveError::TruncatedPayload));
    assert!(!is_buf_simple_archive(&far));
}

#[test]
fn the_sizes_must_add_up_to_the_buffer() {
    let mut longer = THREE.to_vec();
    longer.push(0);
    assert!(!is_buf_simple_archive(&longer));
    assert_eq!(decode_simple_archive(&longer), Ok(three()));
    let mut shorter = THREE.to_vec();
    shorter[8] = 2;
    assert!(!is_buf_simple_archive(&shorter));
}

#[test]
fn an_archive_is_recognised_below_9999_files() {
    let most = vec![Vec::<u8>::new(); 9998];
    let packed = encode_simple_archive(&most);
    assert!(is_buf_simple_archive(&packed));
    assert_eq!(decode_simple_archive(&packed).unwrap().len(), 9998);
    let more = vec![Vec::<u8>::new(); 9999];
    let packed = encode_simple_archive(&more);
    assert!(!is_buf_simple_archive(&packed));
    assert_eq!(decode_simple_archive(&packed).unwrap().len(), 9999);
}

#[test]
fn plain_text_is_no_archive() {
    assert!(!is_buf_simple_archive(b"HELLO"));
    assert!(!is_buf_simple_archive(b"this is not an archive at all"));
}

#[test]
fn small_files_fit() {
    assert!(simple_archive_fits(&three()));
    assert!(simple_archive_fits(&[]));
}
