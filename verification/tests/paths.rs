use rsfrontier_core::path::{
    append_bytes, find_extension, find_name_start, has_extension, names_file, push_component,
    set_extension,
};
use rsfrontier_core::text::{push_decimal, push_decimal4};

fn with_ext(path: &str, ext: &str) -> String {
    let mut p = path.as_bytes().to_vec();
    set_extension(&mut p, ext.as_bytes());
    String::from_utf8(p).unwrap()
}

fn joined(base: &str, name: &str) -> String {
    let mut p = base.as_bytes().to_vec();
    push_component(&mut p, name.as_bytes());
    String::from_utf8(p).unwrap()
}

#[test]
fn setting_an_extension() {
    assert_eq!(with_ext("a", "bin"), "a.bin");
    assert_eq!(with_ext("a.png", "bin"), "a.bin");
    assert_eq!(with_ext("a.b.c", "bin"), "a.b.bin");
    assert_eq!(with_ext("dir.d/a", "bin"), "dir.d/a.bin");
    assert_eq!(with_ext("dir/a.", "bin"), "dir/a.bin");
    assert_eq!(with_ext(".hidden", "bin"), ".hidden.bin");
    assert_eq!(with_ext(".hidden.txt", "bin"), ".hidden.bin");
}

#[test]
fn taking_an_extension_away() {
    assert_eq!(with_ext("a.png", ""), "a");
    assert_eq!(with_ext("a", ""), "a");
    assert_eq!(with_ext("x/.metadata", ""), "x/.metadata");
    assert_eq!(with_ext("x/a.b.c", ""), "x/a.b");
}

#[test]
fn a_path_that_names_no_file_stays() {
    assert_eq!(with_ext("", "bin"), "");
    assert_eq!(with_ext("dir/", "bin"), "dir/");
    assert_eq!(with_ext("..", "bin"), "..");
    assert_eq!(with_ext("a/..", "bin"), "a/..");
    assert_eq!(with_ext(".", "bin"), ".");
    assert!(!names_file(b""));
    assert!(!names_file(b"a/"));
    assert!(!names_file(b"a/.."));
    assert!(names_file(b"a/..."));
    assert!(names_file(b"a"));
}

#[test]
fn joining_components() {
    assert_eq!(joined("x", "0000"), "x/0000");
    assert_eq!(joined("", "0000"), "0000");
    assert_eq!(joined("x/", "a"), "x/a");
    assert_eq!(joined("x/y", "a/b"), "x/y/a/b");
    assert_eq!(joined("x", ""), "x/");
}

#[test]
fn finding_names_and_extensions() {
    assert_eq!(find_name_start(b"a/b/c.txt"), 4);
    assert_eq!(find_name_start(b"c.txt"), 0);
    assert_eq!(find_name_start(b"a/"), 2);
    assert_eq!(find_extension(b"a/b/c.txt"), Some(6));
    assert_eq!(find_extension(b"a.b/c"), None);
    assert_eq!(find_extension(b".txt"), None);
    assert_eq!(find_extension(b"c."), Some(2));
    assert!(has_extension(b"c.txt", b"txt"));
    assert!(!has_extension(b"c.txt", b"tx"));
    assert!(!has_extension(b"c.txt", b"txt2"));
    assert!(has_extension(b"c.", b""));
    assert!(!has_extension(b"c", b""));
}

#[test]
fn appending_bytes() {
    let mut v = vec![1u8];
    append_bytes(&mut v, &[2, 3]);
    append_bytes(&mut v, &[]);
    assert_eq!(v, vec![1, 2, 3]);
}

#[test]
fn numbers_in_decimal() {
    let mut out = Vec::new();
    push_decimal(&mut out, 0);
    out.push(b' ');
    push_decimal(&mut out, 7);
    out.push(b' ');
    push_decimal(&mut out, 65535);
    out.push(b' ');
    push_decimal(&mut out, 4294967295);
    assert_eq!(out, b"0 7 65535 4294967295".to_vec());
}

#[test]
fn numbers_in_four_digits() {
    let mut out = Vec::new();
    for n in [0u32, 9, 10, 99, 100, 999, 1000, 9998, 10000, 123456] {
        push_decimal4(&mut out, n);
        out.push(b' ');
    }
    assert_eq!(out, b"0000 0009 0010 0099 0100 0999 1000 9998 10000 123456 ".to_vec());
}
