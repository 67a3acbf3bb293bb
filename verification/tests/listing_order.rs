//! Folder import filtering and ordering, and the font list.

use mtproj::listing::{ImageInfo, filter_image_entries, sort_images, sort_dedup_fonts, is_image_name};

fn info(name: &str) -> ImageInfo {
    ImageInfo {
        name: name.as_bytes().to_vec(),
        path: format!("/dir/{}", name).into_bytes(),
        data_url: Vec::new(),
        thumbnail: Vec::new(),
    }
}

#[test]
fn extension_filter() {
    assert!(is_image_name(&b"a.png".to_vec()));
    assert!(is_image_name(&b"a.JPG".to_vec()));
    assert!(is_image_name(&b"b.heif".to_vec()));
    assert!(!is_image_name(&b"c.txt".to_vec()));
    assert!(!is_image_name(&b"noext".to_vec()));
    assert!(!is_image_name(&b"almost.png.bak".to_vec()));
}

#[test]
fn folder_entries_are_filtered() {
    let entries = vec![info("b.png"), info("notes.txt"), info("a.JPG"), info("script.sh")];
    let kept = filter_image_entries(entries);
    let names: Vec<String> =
        kept.iter().map(|i| String::from_utf8(i.name.clone()).unwrap()).collect();
    assert_eq!(names, vec!["b.png", "a.JPG"]);
}

#[test]
fn images_sort_by_name() {
    let entries = vec![info("c.png"), info("a.png"), info("b.png"), info("a.png")];
    let sorted = sort_images(entries);
    let names: Vec<String> =
        sorted.iter().map(|i| String::from_utf8(i.name.clone()).unwrap()).collect();
    assert_eq!(names, vec!["a.png", "a.png", "b.png", "c.png"]);
}

#[test]
fn fonts_sort_and_dedup() {
    let fonts = vec![
        b"Noto Sans".to_vec(),
        b"Arial".to_vec(),
        b"Noto Sans".to_vec(),
        b"Comic Sans MS".to_vec(),
        b"Arial".to_vec(),
    ];
    let out = sort_dedup_fonts(fonts);
    let names: Vec<String> = out.into_iter().map(|f| String::from_utf8(f).unwrap()).collect();
    assert_eq!(names, vec!["Arial", "Comic Sans MS", "Noto Sans"]);
}

#[test]
fn fonts_empty() {
    assert_eq!(sort_dedup_fonts(Vec::new()), Vec::<Vec<u8>>::new());
}
