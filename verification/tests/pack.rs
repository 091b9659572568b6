use rsfrontier_core::ecd::decrypt_ecd;
use rsfrontier_core::jpk::{decode_jpk, parse_header};
use rsfrontier_core::mha::decode_mha_archive;
use rsfrontier_core::simple_archive::{decode_simple_archive, encode_simple_archive};
use rsfrontier_core::{
    pack_buffer, pack_folder, recursive_pack, unpack_buffer, FolderPackType, PackEntry, PackError,
    PackType,
};
use queues::IsQueue;

const PNG: &[u8] = b"\x89PNG\r\n\x1a\nimage";
const OGG: &[u8] = b"OggS sound";

fn file(path: &str, data: &[u8]) -> PackEntry {
    PackEntry::File { path: path.to_string(), data: data.to_vec() }
}

fn dir(path: &str, entries: Vec<PackEntry>) -> PackEntry {
    PackEntry::Dir { path: path.to_string(), entries }
}

#[test]
fn packing_a_buffer_with_encryption() {
    let packed = pack_buffer(b"HELLO", PackType::Ecd).unwrap();
    assert_eq!(packed.len(), 21);
    assert_eq!(decrypt_ecd(&packed), Ok(b"HELLO".to_vec()));
}

#[test]
fn packing_a_buffer_with_compression() {
    for code in [0u16, 3, 4] {
        let packed = pack_buffer(b"HELLO HELLO HELLO", PackType::Jpk(code)).unwrap();
        assert_eq!(parse_header(&packed).unwrap().comp_type.code(), code);
        assert_eq!(decode_jpk(&packed), Ok(b"HELLO HELLO HELLO".to_vec()));
    }
    assert_eq!(pack_buffer(b"HELLO", PackType::Jpk(1)), Err(PackError::InvalidType(1)));
}

#[test]
fn files_are_queued_in_order_with_sniffed_extensions() {
    let entries = vec![file("d/a.dat", PNG), file("d/b", OGG), file("d/c.txt", b"text")];
    let mut queue = recursive_pack(&entries).unwrap();
    assert_eq!(queue.size(), 3);
    assert_eq!(queue.remove(), Ok(("d/a.png".to_string(), PNG.to_vec())));
    assert_eq!(queue.remove(), Ok(("d/b.ogg".to_string(), OGG.to_vec())));
    assert_eq!(queue.remove(), Ok(("d/c.bin".to_string(), b"text".to_vec())));
    assert_eq!(queue.size(), 0);
}

#[test]
fn hidden_entries_are_left_out() {
    let entries = vec![
        file("d/.metadata", b"5,10"),
        file("d/a.png", PNG),
        dir("d/.git", vec![file("d/.git/x.png", PNG)]),
    ];
    let mut queue = recursive_pack(&entries).unwrap();
    assert_eq!(queue.size(), 1);
    assert_eq!(queue.remove(), Ok(("d/a.png".to_string(), PNG.to_vec())));
}

#[test]
fn three_extensions_are_compressed_on_the_way() {
    let entries = vec![file("d/a.bin", b"HELLO"), file("d/m.fmod", b"HELLO"), file("d/s.fskl", b"HELLO")];
    let mut queue = recursive_pack(&entries).unwrap();
    for expected in ["d/a.jkr", "d/m.jkr", "d/s.jkr"] {
        let (path, body) = queue.remove().unwrap();
        assert_eq!(path, expected);
        assert_eq!(parse_header(&body).unwrap().comp_type.code(), 4);
        assert_eq!(decode_jpk(&body), Ok(b"HELLO".to_vec()));
    }
}

#[test]
fn a_directory_becomes_a_simple_archive() {
    let entries = vec![dir("d/sub", vec![file("d/sub/0000.png", PNG), file("d/sub/0001.ogg", OGG)])];
    let mut queue = recursive_pack(&entries).unwrap();
    let (path, body) = queue.remove().unwrap();
    assert_eq!(path, "d/sub.bin");
    assert_eq!(body, encode_simple_archive(&[PNG.to_vec(), OGG.to_vec()]));
}

#[test]
fn a_folder_as_a_simple_archive() {
    let entries = vec![
        file("d/0000.png", PNG),
        dir("d/0001", vec![file("d/0001/0000.ogg", OGG), file("d/0001/.skip", b"x")]),
        file("d/.metadata", b"1,2"),
        file("d/0002.ogg", OGG),
    ];
    let packed = pack_folder(&entries, FolderPackType::Simple).unwrap();
    let inner = encode_simple_archive(&[OGG.to_vec()]);
    assert_eq!(packed, encode_simple_archive(&[PNG.to_vec(), inner, OGG.to_vec()]));
    assert_eq!(decode_simple_archive(&packed).unwrap().len(), 3);
}

#[test]
fn unpacking_and_packing_a_simple_archive_gives_it_back() {
    let inner = encode_simple_archive(&[OGG.to_vec(), PNG.to_vec()]);
    let archive = encode_simple_archive(&[PNG.to_vec(), inner, OGG.to_vec()]);
    let leaves = unpack_buffer("x", &archive).unwrap();
    let paths: Vec<&str> = leaves.iter().map(|l| l.0.as_str()).collect();
    assert_eq!(paths, vec!["x/0000.png", "x/0001/0000.ogg", "x/0001/0001.png", "x/0002.ogg"]);
    let entries = vec![
        file("x/0000.png", &leaves[0].1),
        dir("x/0001", vec![file("x/0001/0000.ogg", &leaves[1].1), file("x/0001/0001.png", &leaves[2].1)]),
        file("x/0002.ogg", &leaves[3].1),
    ];
    assert_eq!(pack_folder(&entries, FolderPackType::Simple), Ok(archive));
}

#[test]
fn a_folder_as_an_mha_archive() {
    let entries = vec![file("d/tex.dat", PNG), file("d/.metadata", b"5,10"), file("d/snd.ogg", OGG)];
    let packed = pack_folder(&entries, FolderPackType::MHA(5, 10)).unwrap();
    assert_eq!(
        decode_mha_archive(&packed),
        Ok(vec![
            ("tex.png".to_string(), PNG.to_vec()),
            ("snd.ogg".to_string(), OGG.to_vec()),
            (".metadata".to_string(), b"5,10".to_vec()),
        ])
    );
}

#[test]
fn a_folder_without_an_archive_around_it() {
    let entries = vec![file("d/a.png", PNG), file("d/b.ogg", OGG)];
    let mut expected = PNG.to_vec();
    expected.extend_from_slice(OGG);
    assert_eq!(pack_folder(&entries, FolderPackType::Monster), Ok(expected));
}

#[test]
fn an_empty_folder() {
    assert_eq!(pack_folder(&Vec::new(), FolderPackType::Simple), Ok(vec![0, 0, 0, 0]));
    assert_eq!(pack_folder(&Vec::new(), FolderPackType::Monster), Ok(vec![]));
    assert_eq!(pack_folder(&Vec::new(), FolderPackType::MHA(1, 2)).unwrap().len(), 24);
    assert_eq!(recursive_pack(&Vec::new()).unwrap().size(), 0);
}
