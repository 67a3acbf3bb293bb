//! Mask normalization: the exact bytes of the packed 1-bit raster.

use mtproj::mask::{pack_mask, mask_png};

#[test]
fn pack_two_by_two() {
    // row 0: 0 (clear), 255 (set); row 1: 128 (set), 127 (clear)
    let px = vec![0u8, 255, 128, 127];
    let packed = pack_mask(&px, 2, 2);
    assert_eq!(packed, vec![0b0100_0000, 0b1000_0000]);
}

#[test]
fn pack_rows_of_nine() {
    // width 9 needs ceil(9/8) = 2 bytes per row, the padding bits zero
    let mut px = vec![0u8; 18];
    px[0] = 200;  // row 0, x 0
    px[8] = 255;  // row 0, x 8
    px[16] = 130; // row 1, x 7
    let packed = pack_mask(&px, 9, 2);
    assert_eq!(packed.len(), 2 * 2);
    assert_eq!(packed, vec![0b1000_0000, 0b1000_0000, 0b0000_0001, 0b0000_0000]);
}

#[test]
fn pack_threshold_is_midpoint() {
    let px = vec![127u8, 128];
    let packed = pack_mask(&px, 2, 1);
    assert_eq!(packed, vec![0b0100_0000]);
}

#[test]
fn pack_empty_dimensions() {
    let px: Vec<u8> = Vec::new();
    assert_eq!(pack_mask(&px, 0, 5), Vec::<u8>::new());
    assert_eq!(pack_mask(&px, 7, 0), Vec::<u8>::new());
}

#[test]
fn mask_png_is_one_bit_grayscale() {
    let px = vec![0u8, 255, 128, 127, 1, 250];
    let bytes = mask_png(3, 2, &px).unwrap();
    let decoder = png::Decoder::new(std::io::Cursor::new(bytes));
    let mut reader = decoder.read_info().unwrap();
    assert_eq!(reader.info().width, 3);
    assert_eq!(reader.info().height, 2);
    assert_eq!(reader.info().bit_depth, png::BitDepth::One);
    assert_eq!(reader.info().color_type, png::ColorType::Grayscale);
    let mut buf = vec![0u8; reader.output_buffer_size().unwrap()];
    let info = reader.next_frame(&mut buf).unwrap();
    // rows: [0,255,128] -> 011, [127,1,250] -> 001
    assert_eq!(&buf[..info.buffer_size()], &[0b0110_0000, 0b0010_0000]);
}
