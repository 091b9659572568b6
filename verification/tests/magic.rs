use rsfrontier_core::magic::{find_buf_extension, get_extension, is_file_fmod, is_file_fskl};

#[test]
fn known_magic_numbers() {
    assert_eq!(get_extension(542327876), Some("dds"));
    assert_eq!(get_extension(0x000B0000), Some("ftxt"));
    assert_eq!(get_extension(846751303), Some("gfx2"));
    assert_eq!(get_extension(0x1A524B4A), Some("jkr"));
    assert_eq!(get_extension(0x5367674F), Some("ogg"));
    assert_eq!(get_extension(7302512), Some("pmo"));
    assert_eq!(get_extension(0x474e5089), Some("png"));
    assert_eq!(get_extension(1213027374), Some("tmh"));
    assert_eq!(get_extension(0), None);
    assert_eq!(get_extension(1), None);
    assert_eq!(get_extension(0xC0000000), None);
}

#[test]
fn extensions_by_leading_bytes() {
    assert_eq!(find_buf_extension(b"DDS \x7c\0\0\0"), "dds");
    assert_eq!(find_buf_extension(&[0x00, 0x00, 0x0B, 0x00]), "ftxt");
    assert_eq!(find_buf_extension(b"Gfx2"), "gfx2");
    assert_eq!(find_buf_extension(b"JKR\x1a"), "jkr");
    assert_eq!(find_buf_extension(b"OggS and more"), "ogg");
    assert_eq!(find_buf_extension(b"pmo\0"), "pmo");
    assert_eq!(find_buf_extension(b"\x89PNG\r\n\x1a\n"), "png");
    assert_eq!(find_buf_extension(b".TMH"), "tmh");
}

#[test]
fn anything_else_is_bin() {
    assert_eq!(find_buf_extension(b"HELLO"), "bin");
    assert_eq!(find_buf_extension(b""), "bin");
    assert_eq!(find_buf_extension(b"Og"), "bin");
    assert_eq!(find_buf_extension(&[0, 0, 0, 0]), "bin");
}

#[test]
fn a_skeleton_declares_its_own_length() {
    let mut buf = vec![0u8; 12];
    buf[3] = 0xC0;
    buf[8] = 12;
    assert!(is_file_fskl(&buf));
    assert!(!is_file_fmod(&buf));
    assert_eq!(find_buf_extension(&buf), "fskl");
    buf.push(0);
    assert!(!is_file_fskl(&buf));
    assert_eq!(find_buf_extension(&buf), "bin");
    buf[8] = 13;
    assert_eq!(find_buf_extension(&buf), "fskl");
    assert!(!is_file_fskl(&buf[..11]));
    assert!(!is_file_fskl(&[0, 0, 0, 0xC0]));
}

#[test]
fn a_model_declares_its_own_length() {
    let mut buf = vec![0u8; 300];
    buf[0] = 1;
    buf[8] = 0x2c;
    buf[9] = 0x01;
    assert!(is_file_fmod(&buf));
    assert!(!is_file_fskl(&buf));
    assert_eq!(find_buf_extension(&buf), "fmod");
    buf[9] = 0;
    assert!(!is_file_fmod(&buf));
    assert_eq!(find_buf_extension(&buf), "bin");
    assert!(!is_file_fmod(&[1, 0, 0, 0]));
    assert!(!is_file_fmod(&[]));
}
