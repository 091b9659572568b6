use rsfrontier_core::ecd::{encrypt_ecd, is_buf_ecd, EcdError};
use rsfrontier_core::jpk::{create_jpk, is_buf_jpk, JpkError};
use rsfrontier_core::mha::{encode_mha_archive, is_buf_mha};
use rsfrontier_core::simple_archive::{encode_simple_archive, is_buf_simple_archive, ArchiveError};
use rsfrontier_core::{pack_buffer, unpack_buffer, PackType, UnpackError, MAX_DEPTH};

const PNG: &[u8] = b"\x89PNG\r\n\x1a\nimage";
const OGG: &[u8] = b"OggS sound";

fn leaf(path: &str, body: &[u8]) -> (String, Vec<u8>) {
    (path.to_string(), body.to_vec())
}

#[test]
fn hello_inside_compression_inside_encryption() {
    let compressed = pack_buffer(b"HELLO", PackType::Jpk(4)).unwrap();
    let encrypted = pack_buffer(&compressed, PackType::Ecd).unwrap();
    assert!(is_buf_ecd(&encrypted));
    assert_eq!(unpack_buffer("x", &encrypted), Ok(vec![leaf("x.bin", b"HELLO")]));
}

#[test]
fn a_plain_buffer_is_a_leaf() {
    assert_eq!(unpack_buffer("out/file", PNG), Ok(vec![leaf("out/file.png", PNG)]));
    assert_eq!(unpack_buffer("out/file.dat", OGG), Ok(vec![leaf("out/file.ogg", OGG)]));
    assert_eq!(unpack_buffer("x", b""), Ok(vec![leaf("x.bin", b"")]));
    assert_eq!(unpack_buffer("x", b"abc"), Ok(vec![leaf("x.bin", b"abc")]));
}

#[test]
fn a_leaf_whose_name_begins_with_a_dot_gets_no_extension() {
    assert_eq!(unpack_buffer("out/.keep", PNG), Ok(vec![leaf("out/.keep", PNG)]));
    assert_eq!(unpack_buffer(".a.b", PNG), Ok(vec![leaf(".a", PNG)]));
}

#[test]
fn a_leaf_without_a_file_name_keeps_its_path() {
    assert_eq!(unpack_buffer("", PNG), Ok(vec![leaf("", PNG)]));
    assert_eq!(unpack_buffer("out/", PNG), Ok(vec![leaf("out/", PNG)]));
}

#[test]
fn the_files_of_a_simple_archive_are_numbered() {
    let archive = encode_simple_archive(&[PNG.to_vec(), OGG.to_vec(), b"data".to_vec()]);
    assert_eq!(
        unpack_buffer("x", &archive),
        Ok(vec![leaf("x/0000.png", PNG), leaf("x/0001.ogg", OGG), leaf("x/0002.bin", b"data")])
    );
}

#[test]
fn archives_inside_archives() {
    let inner = encode_simple_archive(&[OGG.to_vec(), PNG.to_vec()]);
    let packed = create_jpk(&inner, 3).unwrap();
    let outer = encode_simple_archive(&[PNG.to_vec(), packed, Vec::new()]);
    assert_eq!(
        unpack_buffer("base.pac", &outer),
        Ok(vec![
            leaf("base.pac/0000.png", PNG),
            leaf("base.pac/0001/0000.ogg", OGG),
            leaf("base.pac/0001/0001.png", PNG),
            leaf("base.pac/0002.bin", b""),
        ])
    );
}

#[test]
fn an_empty_simple_archive_gives_nothing() {
    assert_eq!(unpack_buffer("x", &[0, 0, 0, 0]), Ok(vec![]));
}

#[test]
fn the_files_of_an_mha_archive_keep_their_names() {
    let archive = encode_mha_archive(
        vec![
            ("tex.dat".to_string(), PNG.to_vec()),
            ("sound".to_string(), OGG.to_vec()),
            ("sub/raw.x.y".to_string(), b"zz".to_vec()),
        ],
        5,
        10,
    );
    assert!(is_buf_mha(&archive));
    assert_eq!(
        unpack_buffer("x", &archive),
        Ok(vec![
            leaf("x/tex.png", PNG),
            leaf("x/sound.ogg", OGG),
            leaf("x/sub/raw.bin", b"zz"),
            leaf("x/.metadata", b"5,10"),
        ])
    );
}

#[test]
fn every_leaf_is_plain() {
    let inner = encode_mha_archive(vec![("a.bin".to_string(), b"HELLO".to_vec())], 1, 2);
    let outer = encode_simple_archive(&[encrypt_ecd(&inner), create_jpk(PNG, 4).unwrap()]);
    let leaves = unpack_buffer("x", &encrypt_ecd(&outer)).unwrap();
    assert_eq!(leaves.len(), 3);
    for (_, body) in &leaves {
        assert!(!is_buf_ecd(body));
        assert!(!is_buf_jpk(body));
        assert!(!is_buf_simple_archive(body));
        assert!(!is_buf_mha(body));
    }
    assert_eq!(leaves[0], leaf("x/0000/a.bin", b"HELLO"));
    assert_eq!(leaves[1], leaf("x/0000/.metadata", b"1,2"));
    assert_eq!(leaves[2], leaf("x/0001.png", PNG));
}

#[test]
fn encryption_is_looked_for_before_compression() {
    let both = encrypt_ecd(&create_jpk(OGG, 0).unwrap());
    assert_eq!(unpack_buffer("x", &both), Ok(vec![leaf("x.ogg", OGG)]));
    let other = create_jpk(&encrypt_ecd(OGG), 0).unwrap();
    assert_eq!(unpack_buffer("x", &other), Ok(vec![leaf("x.ogg", OGG)]));
}

#[test]
fn a_broken_layer_stops_the_unpacking() {
    let mut encrypted = encrypt_ecd(b"HELLO");
    encrypted.pop();
    assert_eq!(
        unpack_buffer("x", &encrypted),
        Err(UnpackError::Ecd(EcdError::TruncatedPayload))
    );
    let mut compressed = create_jpk(b"HELLO", 0).unwrap();
    compressed[6] = 9;
    assert_eq!(
        unpack_buffer("x", &compressed),
        Err(UnpackError::Jpk(JpkError::InvalidType(9)))
    );
    let archive = encode_simple_archive(&[PNG.to_vec(), compressed]);
    assert_eq!(
        unpack_buffer("x", &archive),
        Err(UnpackError::Jpk(JpkError::InvalidType(9)))
    );
    let mut named = encode_mha_archive(vec![("a".to_string(), vec![1])], 1, 1);
    named.pop();
    assert_eq!(
        unpack_buffer("x", &named),
        Err(UnpackError::Archive(ArchiveError::TruncatedPayload))
    );
}

#[test]
fn layers_are_peeled_up_to_the_limit() {
    let mut buf = PNG.to_vec();
    for _ in 0..MAX_DEPTH {
        buf = create_jpk(&buf, 0).unwrap();
    }
    assert_eq!(unpack_buffer("x", &buf), Ok(vec![leaf("x.png", PNG)]));
    let deeper = create_jpk(&buf, 0).unwrap();
    assert_eq!(unpack_buffer("x", &deeper), Err(UnpackError::TooDeep));
}
