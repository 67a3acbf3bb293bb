//! End-to-end archive codec tests: export, import, and the round trip.

use mtproj::project::{export_project, import_project, export_flattened_images, ImageData, FlatImage};

use base64::Engine;

fn b64(data: &[u8]) -> String {
    base64::engine::general_purpose::STANDARD.encode(data)
}

fn data_url(mime: &str, data: &[u8]) -> Vec<u8> {
    format!("data:{};base64,{}", mime, b64(data)).into_bytes()
}

fn decode_url(url: &[u8]) -> Vec<u8> {
    let s = String::from_utf8(url.to_vec()).unwrap();
    let pos = s.find(',').unwrap();
    base64::engine::general_purpose::STANDARD.decode(&s[pos + 1..]).unwrap()
}

/// An 8-bit grayscale PNG with the given pixels, row-major.
fn gray_png(w: u32, h: u32, pixels: &[u8]) -> Vec<u8> {
    let mut out = Vec::new();
    {
        let mut enc = png::Encoder::new(&mut out, w, h);
        enc.set_color(png::ColorType::Grayscale);
        enc.set_depth(png::BitDepth::Eight);
        let mut writer = enc.write_header().unwrap();
        writer.write_image_data(pixels).unwrap();
        writer.finish().unwrap();
    }
    out
}

fn metadata_for(names: &[&str]) -> Vec<u8> {
    let list = names
        .iter()
        .map(|n| format!("{{\"name\":\"{}\"}}", n))
        .collect::<Vec<_>>()
        .join(",");
    format!("{{\"version\":\"2\",\"images\":[{}]}}", list).into_bytes()
}

#[test]
fn round_trip_originals_and_masks() {
    let original_a: Vec<u8> = vec![1, 2, 3, 200, 255, 0, 9];
    let original_b: Vec<u8> = b"jpeg-ish bytes".to_vec();
    let mask_pixels: [u8; 4] = [0, 255, 128, 127];
    let mask_png = gray_png(2, 2, &mask_pixels);

    let images = vec![
        ImageData {
            path: b"temp://a".to_vec(),
            name: b"a.png".to_vec(),
            data_url: Some(data_url("image/png", &original_a)),
            mask_data_url: Some(data_url("image/png", &mask_png)),
        },
        ImageData {
            path: b"/somewhere/b.jpg".to_vec(),
            name: b"b.jpg".to_vec(),
            data_url: None,
            mask_data_url: None,
        },
    ];
    let file_bytes = vec![None, Some(original_b.clone())];
    let metadata = metadata_for(&["a.png", "b.jpg"]);

    let archive = export_project(&metadata, &images, &file_bytes).unwrap();
    let project = import_project(archive).unwrap();

    assert_eq!(project.images.len(), 2);

    let a = project.images[0].as_ref().unwrap();
    assert_eq!(a.name, b"a.png");
    // byte-for-byte round trip of the original
    assert_eq!(decode_url(a.data_url.as_ref().unwrap()), original_a);
    assert_eq!(a.path.as_ref().unwrap(), &b"imported/a.png".to_vec());
    // the mask is present, normalized, and carried back as a PNG data URL
    let mask_back = decode_url(a.mask_data_url.as_ref().unwrap());
    let decoder = png::Decoder::new(std::io::Cursor::new(mask_back));
    let reader = decoder.read_info().unwrap();
    assert_eq!(reader.info().bit_depth, png::BitDepth::One);
    // no final was exported: the field is set, and set to absent
    assert!(a.final_data_url.is_none());

    let b = project.images[1].as_ref().unwrap();
    assert_eq!(decode_url(b.data_url.as_ref().unwrap()), original_b);
    // absence marking: the mask field exists and says "no mask"
    assert!(b.mask_data_url.is_none());
    assert!(b.final_data_url.is_none());
}

#[test]
fn exported_mask_raster_is_one_bit() {
    // pixels: row 0 = [0, 255], row 1 = [128, 127]; threshold at 128 gives
    // bits 0,1 then 1,0, packed most significant bit first
    let mask_pixels: [u8; 4] = [0, 255, 128, 127];
    let mask_png = gray_png(2, 2, &mask_pixels);
    let images = vec![ImageData {
        path: b"temp://a".to_vec(),
        name: b"a.png".to_vec(),
        data_url: Some(data_url("image/png", &[7u8])),
        mask_data_url: Some(data_url("image/png", &mask_png)),
    }];
    let metadata = metadata_for(&["a.png"]);
    let archive = export_project(&metadata, &images, &vec![None]).unwrap();

    let mut zip = zip::ZipArchive::new(std::io::Cursor::new(archive)).unwrap();
    let mut entry = zip.by_name("masks/a.png").unwrap();
    let mut data = Vec::new();
    std::io::Read::read_to_end(&mut entry, &mut data).unwrap();
    let decoder = png::Decoder::new(std::io::Cursor::new(data));
    let mut reader = decoder.read_info().unwrap();
    assert_eq!(reader.info().width, 2);
    assert_eq!(reader.info().height, 2);
    assert_eq!(reader.info().bit_depth, png::BitDepth::One);
    assert_eq!(reader.info().color_type, png::ColorType::Grayscale);
    let mut buf = vec![0u8; reader.output_buffer_size().unwrap()];
    let info = reader.next_frame(&mut buf).unwrap();
    assert_eq!(&buf[..info.buffer_size()], &[0b0100_0000, 0b1000_0000]);
}

#[test]
fn name_collision_last_write_wins() {
    let first: Vec<u8> = b"first bytes".to_vec();
    let second: Vec<u8> = b"second bytes".to_vec();
    let images = vec![
        ImageData {
            path: b"temp://x".to_vec(),
            name: b"x.png".to_vec(),
            data_url: Some(data_url("image/png", &first)),
            mask_data_url: None,
        },
        ImageData {
            path: b"temp://x".to_vec(),
            name: b"x.png".to_vec(),
            data_url: Some(data_url("image/png", &second)),
            mask_data_url: None,
        },
    ];
    let metadata = metadata_for(&["x.png"]);
    let archive = export_project(&metadata, &images, &vec![None, None]).unwrap();
    let project = import_project(archive).unwrap();
    let x = project.images[0].as_ref().unwrap();
    assert_eq!(decode_url(x.data_url.as_ref().unwrap()), second);
}

#[test]
fn absent_mask_yields_explicit_absence() {
    let images = vec![ImageData {
        path: b"temp://foo".to_vec(),
        name: b"foo.png".to_vec(),
        data_url: Some(data_url("image/png", &[1u8, 2, 3])),
        mask_data_url: None,
    }];
    let metadata = metadata_for(&["foo.png"]);
    let archive = export_project(&metadata, &images, &vec![None]).unwrap();
    // the archive really lacks masks/foo.png
    {
        let mut zip = zip::ZipArchive::new(std::io::Cursor::new(archive.clone())).unwrap();
        assert!(zip.by_name("masks/foo.png").is_err());
    }
    let project = import_project(archive).unwrap();
    let foo = project.images[0].as_ref().unwrap();
    assert!(foo.data_url.is_some());
    assert!(foo.mask_data_url.is_none());
    assert!(foo.final_data_url.is_none());
}

#[test]
fn final_entries_are_picked_up() {
    // an archive with a finals/ entry, built directly
    let metadata = metadata_for(&["p.jpg"]);
    let rendered: Vec<u8> = b"rendered page".to_vec();
    let mut writer = zip::ZipWriter::new(std::io::Cursor::new(Vec::new()));
    let options = zip::write::FileOptions::<()>::default()
        .compression_method(zip::CompressionMethod::Deflated);
    writer.start_file("project.json", options).unwrap();
    std::io::Write::write_all(&mut writer, &metadata).unwrap();
    writer.start_file("originals/p.jpg", options).unwrap();
    std::io::Write::write_all(&mut writer, b"orig").unwrap();
    writer.start_file("finals/p.png", options).unwrap();
    std::io::Write::write_all(&mut writer, &rendered).unwrap();
    let bytes = writer.finish().unwrap().into_inner();

    let project = import_project(bytes).unwrap();
    let p = project.images[0].as_ref().unwrap();
    assert_eq!(decode_url(p.final_data_url.as_ref().unwrap()), rendered);
    // the original was tagged by its extension
    let url = String::from_utf8(p.data_url.clone().unwrap()).unwrap();
    assert!(url.starts_with("data:image/jpeg;base64,"));
}

#[test]
fn undecodable_mask_is_skipped_not_written_raw() {
    // the payload is valid base64, but its bytes are not an image: the
    // mask entry is skipped — mask entries are always 1-bit rasters
    let images = vec![ImageData {
        path: b"temp://a".to_vec(),
        name: b"a.png".to_vec(),
        data_url: Some(data_url("image/png", &[1u8, 2, 3])),
        mask_data_url: Some(data_url("image/png", b"definitely not an image")),
    }];
    let metadata = metadata_for(&["a.png"]);
    let archive = export_project(&metadata, &images, &vec![None]).unwrap();
    {
        let mut zip = zip::ZipArchive::new(std::io::Cursor::new(archive.clone())).unwrap();
        assert!(zip.by_name("masks/a.png").is_err());
    }
    let project = import_project(archive).unwrap();
    let a = project.images[0].as_ref().unwrap();
    assert!(a.data_url.is_some());
    assert!(a.mask_data_url.is_none());
}

#[test]
fn mask_probe_tries_png_name_then_raw_name() {
    let options = zip::write::FileOptions::<()>::default()
        .compression_method(zip::CompressionMethod::Deflated);
    // only the raw name is present: the second candidate is used
    let metadata = metadata_for(&["p.jpg"]);
    let mut writer = zip::ZipWriter::new(std::io::Cursor::new(Vec::new()));
    writer.start_file("project.json", options).unwrap();
    std::io::Write::write_all(&mut writer, &metadata).unwrap();
    writer.start_file("masks/p.jpg", options).unwrap();
    std::io::Write::write_all(&mut writer, b"raw-name mask").unwrap();
    let bytes = writer.finish().unwrap().into_inner();
    let project = import_project(bytes).unwrap();
    let p = project.images[0].as_ref().unwrap();
    assert_eq!(decode_url(p.mask_data_url.as_ref().unwrap()), b"raw-name mask".to_vec());

    // both present: the `.png` name wins
    let mut writer = zip::ZipWriter::new(std::io::Cursor::new(Vec::new()));
    writer.start_file("project.json", options).unwrap();
    std::io::Write::write_all(&mut writer, &metadata).unwrap();
    writer.start_file("masks/p.png", options).unwrap();
    std::io::Write::write_all(&mut writer, b"renamed mask").unwrap();
    writer.start_file("masks/p.jpg", options).unwrap();
    std::io::Write::write_all(&mut writer, b"raw-name mask").unwrap();
    let bytes = writer.finish().unwrap().into_inner();
    let project = import_project(bytes).unwrap();
    let p = project.images[0].as_ref().unwrap();
    assert_eq!(decode_url(p.mask_data_url.as_ref().unwrap()), b"renamed mask".to_vec());
}

#[test]
fn archive_has_folder_entries() {
    let metadata = metadata_for(&[]);
    let archive = export_project(&metadata, &Vec::new(), &Vec::new()).unwrap();
    let mut zip = zip::ZipArchive::new(std::io::Cursor::new(archive)).unwrap();
    assert!(zip.by_name("originals/").is_ok());
    assert!(zip.by_name("masks/").is_ok());
}

#[test]
fn metadata_is_fatal_when_missing_or_malformed() {
    // not an archive at all
    assert!(import_project(b"not a zip".to_vec()).is_err());

    // an archive without project.json
    let mut writer = zip::ZipWriter::new(std::io::Cursor::new(Vec::new()));
    let options = zip::write::FileOptions::<()>::default()
        .compression_method(zip::CompressionMethod::Deflated);
    writer.start_file("originals/a.png", options).unwrap();
    std::io::Write::write_all(&mut writer, b"data").unwrap();
    let bytes = writer.finish().unwrap().into_inner();
    assert!(import_project(bytes).is_err());

    // an archive whose metadata is not JSON
    let mut writer = zip::ZipWriter::new(std::io::Cursor::new(Vec::new()));
    writer.start_file("project.json", options).unwrap();
    std::io::Write::write_all(&mut writer, b"{ not json").unwrap();
    let bytes = writer.finish().unwrap().into_inner();
    assert!(import_project(bytes).is_err());

    // export refuses non-JSON metadata
    assert!(export_project(&b"not json at all".to_vec(), &Vec::new(), &Vec::new()).is_err());
}

#[test]
fn unreadable_records_are_skipped_not_fatal() {
    let good: Vec<u8> = b"good".to_vec();
    let images = vec![
        ImageData {
            path: b"/missing/file.png".to_vec(),
            name: b"gone.png".to_vec(),
            data_url: None,
            mask_data_url: None,
        },
        ImageData {
            path: b"temp://ok".to_vec(),
            name: b"ok.png".to_vec(),
            data_url: Some(data_url("image/png", &good)),
            mask_data_url: None,
        },
        ImageData {
            path: b"temp://bad".to_vec(),
            name: b"../escape.png".to_vec(),
            data_url: Some(data_url("image/png", &good)),
            mask_data_url: None,
        },
    ];
    let metadata = metadata_for(&["gone.png", "ok.png"]);
    let archive = export_project(&metadata, &images, &vec![None, None, None]).unwrap();
    let mut zip = zip::ZipArchive::new(std::io::Cursor::new(archive.clone())).unwrap();
    assert!(zip.by_name("originals/gone.png").is_err());
    assert!(zip.by_name("originals/ok.png").is_ok());
    // the unsafe name was not used as an archive key
    assert!(zip.by_name("originals/../escape.png").is_err());

    let project = import_project(archive).unwrap();
    let gone = project.images[0].as_ref().unwrap();
    assert!(gone.data_url.is_none());
    assert!(gone.path.is_none());
    let ok = project.images[1].as_ref().unwrap();
    assert_eq!(decode_url(ok.data_url.as_ref().unwrap()), good);
}

#[test]
fn metadata_entry_is_pretty_printed() {
    let metadata = b"{\"images\":[],\"version\":\"2\"}".to_vec();
    let archive = export_project(&metadata, &Vec::new(), &Vec::new()).unwrap();
    let mut zip = zip::ZipArchive::new(std::io::Cursor::new(archive)).unwrap();
    let mut entry = zip.by_name("project.json").unwrap();
    let mut text = String::new();
    std::io::Read::read_to_string(&mut entry, &mut text).unwrap();
    let parsed: serde_json::Value = serde_json::from_str(&text).unwrap();
    let expected: serde_json::Value = serde_json::from_slice(&metadata).unwrap();
    assert_eq!(parsed, expected);
    // pretty form: more than one line
    assert!(text.contains('\n'));
}

#[test]
fn elements_without_names_are_left_alone() {
    let metadata = b"{\"images\":[{\"note\":\"no name\"},{\"name\":\"n.png\"}]}".to_vec();
    let archive = export_project(&metadata, &Vec::new(), &Vec::new()).unwrap();
    let project = import_project(archive).unwrap();
    assert_eq!(project.images.len(), 2);
    assert!(project.images[0].is_none());
    let n = project.images[1].as_ref().unwrap();
    assert!(n.data_url.is_none());
    assert!(n.mask_data_url.is_none());
}

#[test]
fn flattened_export_decodes_and_renames() {
    let page: Vec<u8> = vec![9, 8, 7];
    let images = vec![
        FlatImage { name: b"one.jpg".to_vec(), data_url: data_url("image/png", &page) },
        FlatImage { name: b"two.png".to_vec(), data_url: b"no comma here".to_vec() },
    ];
    let files = export_flattened_images(&images);
    assert_eq!(files.len(), 1);
    assert_eq!(files[0].key, b"one.png");
    assert_eq!(files[0].data, page);
}
