//! Entry naming: the `.png` rename, validation, and the content-type map.

use mtproj::names::{to_png_name, is_valid_name, mime_for_name, mime_bytes, Mime};

fn png_name(s: &str) -> String {
    String::from_utf8(to_png_name(&s.as_bytes().to_vec())).unwrap()
}

#[test]
fn png_name_replaces_extension() {
    assert_eq!(png_name("a.jpg"), "a.png");
    assert_eq!(png_name("a.png"), "a.png");
    assert_eq!(png_name("archive.tar.gz"), "archive.tar.png");
    assert_eq!(png_name("noext"), "noext.png");
    assert_eq!(png_name(""), ".png");
}

#[test]
fn png_name_trailing_dot() {
    // "x." has its (empty) extension replaced
    assert_eq!(png_name("x."), "x.png");
}

#[test]
fn valid_names() {
    assert!(is_valid_name(&b"page-01.png".to_vec()));
    assert!(is_valid_name(&b"name with spaces.jpg".to_vec()));
    assert!(!is_valid_name(&b"".to_vec()));
    assert!(!is_valid_name(&b".".to_vec()));
    assert!(!is_valid_name(&b"..".to_vec()));
    assert!(!is_valid_name(&b"a/b.png".to_vec()));
    assert!(!is_valid_name(&b"a\\b.png".to_vec()));
    assert!(!is_valid_name(&b"nul\0byte".to_vec()));
    assert!(is_valid_name(&vec![b'x'; 300]));
    assert!(!is_valid_name(&vec![b'x'; 65001]));
}

fn mime(s: &str) -> String {
    String::from_utf8(mime_bytes(mime_for_name(&s.as_bytes().to_vec()))).unwrap()
}

#[test]
fn mime_mapping_is_closed() {
    assert_eq!(mime("a.png"), "image/png");
    assert_eq!(mime("a.webp"), "image/webp");
    assert_eq!(mime("a.gif"), "image/gif");
    assert_eq!(mime("a.bmp"), "image/bmp");
    assert_eq!(mime("a.tif"), "image/tiff");
    assert_eq!(mime("a.tiff"), "image/tiff");
    assert_eq!(mime("a.jpg"), "image/jpeg");
    assert_eq!(mime("a.jpeg"), "image/jpeg");
    assert_eq!(mime("a.unknown"), "image/jpeg");
    assert_eq!(mime("bare"), "image/jpeg");
}

#[test]
fn mime_mapping_ignores_case() {
    assert_eq!(mime("A.PNG"), "image/png");
    assert_eq!(mime("shot.TIFF"), "image/tiff");
    assert_eq!(mime("B.WebP"), "image/webp");
}

#[test]
fn mime_enum_equality() {
    assert_eq!(mime_for_name(&b"x.PNG".to_vec()), Mime::Png);
    assert_eq!(mime_for_name(&b"x.y".to_vec()), Mime::Jpeg);
}
