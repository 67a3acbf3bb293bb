//! Mask normalization: a grayscale raster thresholded at the midpoint and
//! packed eight pixels to a byte, most significant bit first, each row
//! padded with zero bits, then encoded as a one-bit-depth grayscale PNG.
//!
//! The packing itself is verified down to the bit level; decoding the mask
//! image and the final PNG encoding go through the `image` and `png` crates
//! behind trusted wrappers.

use vstd::prelude::*;
use vstd::arithmetic::div_mod::lemma_fundamental_div_mod_converse;

verus! {

/// Bytes per packed row: eight pixels to a byte, the last byte padded.
pub open spec fn row_bytes(w: int) -> int {
    (w + 7) / 8
}

/// 1 when the pixel at column `x` of row `y` reaches the midpoint
/// threshold, 0 otherwise.
pub open spec fn pix_bit(px: Seq<u8>, w: int, y: int, x: int) -> u8 {
    if px[y * w + x] >= 128 {
        1u8
    } else {
        0u8
    }
}

/// Bits `j..8` of packed byte `k` of row `y` (bit `j` sits at shift
/// `7 - j`); pixels beyond the row's width contribute zero.
pub open spec fn byte_tail(px: Seq<u8>, w: int, y: int, k: int, j: int) -> u8
    decreases 8 - j,
{
    if j < 0 || j >= 8 {
        0u8
    } else {
        let rest = byte_tail(px, w, y, k, j + 1);
        if 8 * k + j < w {
            (pix_bit(px, w, y, 8 * k + j) << ((7 - j) as u8)) | rest
        } else {
            rest
        }
    }
}

/// Packed byte `k` of row `y`.
pub open spec fn packed_byte(px: Seq<u8>, w: int, y: int, k: int) -> u8 {
    byte_tail(px, w, y, k, 0)
}

/// The packed 1-bit raster of a `w` by `h` grayscale image `px`, row-major:
/// `row_bytes(w) * h` bytes.
pub open spec fn spec_pack(px: Seq<u8>, w: int, h: int) -> Seq<u8> {
    Seq::new(
        (row_bytes(w) * h) as nat,
        |i: int| packed_byte(px, w, i / row_bytes(w), i % row_bytes(w)),
    )
}

proof fn lemma_or_bit(a: u8, b: u8, q: u8)
    requires
        q < 8,
    ensures
        ((a | b) >> q) & 1 == ((a >> q) & 1) | ((b >> q) & 1),
{
    assert(((a | b) >> q) & 1 == ((a >> q) & 1) | ((b >> q) & 1)) by (bit_vector);
}

proof fn lemma_shift_bit(s: u8, p: u8, q: u8)
    requires
        s <= 1,
        p < 8,
        q < 8,
    ensures
        ((s << p) >> q) & 1 == (if p == q {
            s
        } else {
            0u8
        }),
{
    assert(((s << p) >> q) & 1 == (if p == q {
        s
    } else {
        0u8
    })) by (bit_vector)
        requires
            s <= 1,
            p < 8,
            q < 8,
    ;
}

proof fn lemma_zero_bit(q: u8)
    ensures
        (0u8 >> q) & 1 == 0,
{
    assert((0u8 >> q) & 1 == 0) by (bit_vector);
}

/// Bits below `j` of `byte_tail(.., j)` are zero.
proof fn lemma_byte_tail_zero_above(px: Seq<u8>, w: int, y: int, k: int, j: int, i: int)
    requires
        0 <= i < j <= 8,
    ensures
        (byte_tail(px, w, y, k, j) >> ((7 - i) as u8)) & 1 == 0,
    decreases 8 - j,
{
    if j >= 8 {
        lemma_zero_bit((7 - i) as u8);
    } else {
        let rest = byte_tail(px, w, y, k, j + 1);
        lemma_byte_tail_zero_above(px, w, y, k, j + 1, i);
        if 8 * k + j < w {
            let s = pix_bit(px, w, y, 8 * k + j);
            let t = s << ((7 - j) as u8);
            lemma_shift_bit(s, (7 - j) as u8, (7 - i) as u8);
            lemma_or_bit(t, rest, (7 - i) as u8);
            assert((0u8 | 0u8) == 0u8) by (bit_vector);
        }
    }
}

/// Bit `i` (at shift `7 - i`) of `byte_tail(.., j)`, for `j <= i`, is the
/// thresholded pixel at column `8k + i`, or zero past the row's end.
proof fn lemma_byte_tail_bit(px: Seq<u8>, w: int, y: int, k: int, j: int, i: int)
    requires
        0 <= j <= i < 8,
    ensures
        (byte_tail(px, w, y, k, j) >> ((7 - i) as u8)) & 1 == (if 8 * k + i < w {
            pix_bit(px, w, y, 8 * k + i)
        } else {
            0u8
        }),
    decreases 8 - j,
{
    let rest = byte_tail(px, w, y, k, j + 1);
    if j == i {
        if 8 * k + j < w {
            let s = pix_bit(px, w, y, 8 * k + j);
            let t = s << ((7 - j) as u8);
            lemma_shift_bit(s, (7 - j) as u8, (7 - i) as u8);
            lemma_byte_tail_zero_above(px, w, y, k, j + 1, i);
            lemma_or_bit(t, rest, (7 - i) as u8);
            lemma_or_zero(s);
        } else {
            lemma_byte_tail_zero_above(px, w, y, k, j + 1, i);
        }
    } else {
        lemma_byte_tail_bit(px, w, y, k, j + 1, i);
        if 8 * k + j < w {
            let s = pix_bit(px, w, y, 8 * k + j);
            let t = s << ((7 - j) as u8);
            lemma_shift_bit(s, (7 - j) as u8, (7 - i) as u8);
            lemma_or_bit(t, rest, (7 - i) as u8);
            lemma_zero_or((rest >> ((7 - i) as u8)) & 1);
        }
    }
}

/// The bit a packed raster holds for pixel `(x, y)`: bit `x % 8` — counting
/// from the most significant — of byte `y * row_bytes(w) + x / 8` is 1
/// exactly when the source pixel reaches the midpoint threshold.
pub proof fn lemma_mask_bit(px: Seq<u8>, w: int, h: int, x: int, y: int)
    requires
        0 <= x < w,
        0 <= y < h,
        px.len() == w * h,
    ensures
        ({
            let r = spec_pack(px, w, h);
            let idx = y * row_bytes(w) + x / 8;
            &&& 0 <= idx < r.len()
            &&& (((r[idx] >> ((7 - x % 8) as u8)) & 1) == 1 <==> px[y * w + x] >= 128)
        }),
{
    let rb = row_bytes(w);
    let r = spec_pack(px, w, h);
    let k = x / 8;
    let idx = y * rb + k;
    assert(8 * (x / 8) + x % 8 == x);
    assert(x / 8 < rb) by {
        assert((w + 7) / 8 >= (x + 1 + 7) / 8);
        assert((x + 8) / 8 == x / 8 + 1);
    }
    assert(0 <= idx && idx + 1 <= rb * h) by (nonlinear_arith)
        requires
            0 <= y < h,
            0 <= k < rb,
            idx == y * rb + k,
    ;
    lemma_fundamental_div_mod_converse(idx, rb, y, k);
    assert(r[idx] == packed_byte(px, w, y, k));
    lemma_byte_tail_bit(px, w, y, k, 0, x % 8);
    assert(8 * k + x % 8 == x);
}

/// Packs a `w` by `h` grayscale raster (one byte per pixel, row-major) into
/// the 1-bit form: threshold at 128, eight pixels to a byte, most
/// significant bit first, rows padded with zero bits.
pub fn pack_mask(px: &Vec<u8>, w: u32, h: u32) -> (r: Vec<u8>)
    requires
        px@.len() == w * h,
    ensures
        r@ == spec_pack(px@, w as int, h as int),
        r@.len() == row_bytes(w as int) * h,
{
    let ghost gw = w as int;
    let ghost gh = h as int;
    let rb: usize = ((w as u64 + 7) / 8) as usize;
    proof {
        assert(rb == row_bytes(gw));
        assert(row_bytes(gw) * gh >= 0) by (nonlinear_arith)
            requires
                row_bytes(gw) >= 0,
                gh >= 0,
        ;
    }
    let mut r: Vec<u8> = Vec::new();
    let mut y: u32 = 0;
    while y < h
        invariant
            px@.len() == gw * gh,
            rb == row_bytes(gw),
            0 <= y <= h,
            gw == w as int,
            gh == h as int,
            r@.len() == y * rb,
            r@ =~= spec_pack(px@, gw, gh).subrange(0, y as int * rb),
        decreases h - y,
    {
        let ghost row_start = r@.len() as int;
        let mut acc: u8 = 0;
        let mut bit: u8 = 0;
        let mut x: u32 = 0;
        proof {
            assert((y + 1) * rb <= gh * rb) by (nonlinear_arith)
                requires
                    0 <= y as int + 1 <= gh,
                    rb >= 0,
            ;
            assert(gh * rb == row_bytes(gw) * gh) by (nonlinear_arith)
                requires rb == row_bytes(gw),
            ;
            assert forall|t: u8| t < 8 implies ((0u8 >> t) & 1) == 0 by {
                lemma_zero_bit(t);
            }
            assert(byte_tail(px@, gw, y as int, 0, 0) == packed_byte(px@, gw, y as int, 0));
            lemma_zero_or(byte_tail(px@, gw, y as int, 0, 0));
        }
        while x < w
            invariant
                px@.len() == gw * gh,
                rb == row_bytes(gw),
                0 <= y < h,
                gw == w as int,
                gh == h as int,
                0 <= x <= w,
                bit == x % 8,
                x as int / 8 <= rb,
                row_start == y as int * rb,
                r@.len() == row_start + x as int / 8,
                (y + 1) * rb <= row_bytes(gw) * gh,
                r@ =~= spec_pack(px@, gw, gh).subrange(0, r@.len() as int),
                acc | byte_tail(px@, gw, y as int, x as int / 8, bit as int)
                    == packed_byte(px@, gw, y as int, x as int / 8),
                forall|t: u8| t < 8 && t + bit < 8 ==> #[trigger] ((acc >> t) & 1) == 0,
            decreases w - x,
        {
            proof {
                assert(y as int * gw + x < gw * gh) by (nonlinear_arith)
                    requires
                        0 <= y as int,
                        (y as int) < gh,
                        0 <= x as int,
                        (x as int) < gw,
                ;
                assert(y as int * gw + x >= 0) by (nonlinear_arith)
                    requires
                        0 <= y as int,
                        0 <= x as int,
                        gw >= 0,
                ;
            }
            let plen: usize = px.len();
            let pi: usize = (y as usize) * (w as usize) + (x as usize);
            let p = px[pi];
            let set: u8 = if p >= 128 { 1 } else { 0 };
            let ghost old_acc = acc;
            acc = acc | (set << (7 - bit));
            proof {
                let k = x as int / 8;
                let j = bit as int;
                assert(8 * k + j == x) by {
                    assert(8 * (x as int / 8) + x as int % 8 == x);
                };
                assert(set == pix_bit(px@, gw, y as int, x as int));
                let t = set << ((7 - j) as u8);
                let rest = byte_tail(px@, gw, y as int, k, j + 1);
                assert(byte_tail(px@, gw, y as int, k, j) == t | rest);
                assert(old_acc | (t | rest) == (old_acc | t) | rest) by (bit_vector);
                // the new acc still has zero bits above position j
                assert forall|q: u8| q < 8 && q + bit + 1 < 8 implies ((acc >> q) & 1)
                    == 0 by {
                    lemma_shift_bit(set, (7 - bit) as u8, q);
                    lemma_or_bit(old_acc, t, q);
                    assert((0u8 | 0u8) == 0) by (bit_vector);
                }
                // acc | byte_tail(j + 1) is now the packed byte
                assert(acc | rest == packed_byte(px@, gw, y as int, k));
            }
            bit = bit + 1;
            if bit == 8 {
                proof {
                    let k = x as int / 8;
                    assert(x as int % 8 == 7);
                    assert(byte_tail(px@, gw, y as int, k, 8) == 0);
                    lemma_or_zero(acc);
                    assert(packed_byte(px@, gw, y as int, k) == acc);
                    let idx = row_start + k;
                    assert(idx == y as int * rb + k);
                    assert(k < rb) by {
                        assert(8 * k + 7 == x) by {
                            assert(8 * (x as int / 8) + x as int % 8 == x);
                        };
                        assert((gw + 7) / 8 >= (x as int + 1 + 7) / 8);
                        assert((8 * k + 8 + 7) / 8 >= k + 1) by (nonlinear_arith)
                            requires 0 <= k,
                        ;
                    }
                    assert(idx + 1 <= (y + 1) * rb) by (nonlinear_arith)
                        requires
                            idx == y as int * rb + k,
                            0 <= k < rb,
                    ;
                    lemma_fundamental_div_mod_converse(idx, rb as int, y as int, k);
                    assert(spec_pack(px@, gw, gh)[idx] == packed_byte(px@, gw, y as int, k));
                }
                r.push(acc);
                acc = 0;
                bit = 0;
                proof {
                    assert(r@ =~= spec_pack(px@, gw, gh).subrange(0, r@.len() as int));
                    assert forall|t: u8| t < 8 implies ((0u8 >> t) & 1) == 0 by {
                        lemma_zero_bit(t);
                    }
                    let k1 = x as int / 8 + 1;
                    assert((x + 1) as int / 8 == k1 && (x + 1) as int % 8 == 0) by {
                        assert(8 * (x as int / 8) + x as int % 8 == x);
                        lemma_fundamental_div_mod_converse(x + 1, 8, k1, 0);
                    };
                    lemma_zero_or(byte_tail(px@, gw, y as int, k1, 0));
                }
            } else {
                proof {
                    assert((x + 1) as int / 8 == x as int / 8
                        && (x + 1) as int % 8 == bit as int) by {
                        assert(8 * (x as int / 8) + x as int % 8 == x);
                        lemma_fundamental_div_mod_converse(
                            x + 1,
                            8,
                            x as int / 8,
                            x as int % 8 + 1,
                        );
                    };
                }
            }
            x = x + 1;
        }
        if bit != 0 {
            proof {
                let k = x as int / 8;
                let j = bit as int;
                assert(8 * k + j == x) by {
                    assert(8 * (x as int / 8) + x as int % 8 == x);
                };
                lemma_byte_tail_end(px@, gw, y as int, k, j);
                lemma_or_zero(acc);
                assert(packed_byte(px@, gw, y as int, k) == acc);
                let idx = row_start + k;
                assert(idx == y as int * rb + k);
                assert(k < rb) by {
                    assert((gw + 7) / 8 >= (x as int + 7) / 8);
                    assert((8 * k + j + 7) / 8 >= k + 1) by (nonlinear_arith)
                        requires 0 <= k, 1 <= j < 8,
                    ;
                }
                assert(idx + 1 <= (y + 1) * rb) by (nonlinear_arith)
                    requires
                        idx == y as int * rb + k,
                        0 <= k < rb,
                ;
                lemma_fundamental_div_mod_converse(idx, rb as int, y as int, k);
                assert(spec_pack(px@, gw, gh)[idx] == packed_byte(px@, gw, y as int, k));
            }
            r.push(acc);
            proof {
                assert(r@ =~= spec_pack(px@, gw, gh).subrange(0, r@.len() as int));
            }
        }
        proof {
            // the row is complete: x / 8 full bytes, plus one partial byte
            let k = x as int / 8;
            let j = x as int % 8;
            assert(8 * k + j == x);
            if j == 0 {
                assert(rb == k) by {
                    assert((8 * k + 7) / 8 == k) by (nonlinear_arith)
                        requires 0 <= k,
                    ;
                }
            } else {
                assert(rb == k + 1) by {
                    assert((8 * k + j + 7) / 8 == k + 1) by (nonlinear_arith)
                        requires 0 <= k, 1 <= j < 8,
                    ;
                }
            }
            assert(r@.len() == (y + 1) * rb) by (nonlinear_arith)
                requires
                    r@.len() == y as int * rb + rb,
                    rb >= 0,
            ;
        }
        y = y + 1;
    }
    proof {
        assert(r@.len() == row_bytes(gw) * gh) by (nonlinear_arith)
            requires
                r@.len() == gh * rb,
                rb == row_bytes(gw),
        ;
        assert(r@ =~= spec_pack(px@, gw, gh));
    }
    r
}

proof fn lemma_zero_or(z: u8)
    ensures
        0u8 | z == z,
{
    assert(0u8 | z == z) by (bit_vector);
}

proof fn lemma_or_zero(z: u8)
    ensures
        z | 0u8 == z,
{
    assert(z | 0u8 == z) by (bit_vector);
}

/// What the `image` crate decodes `bytes` to, taken to 8-bit grayscale:
/// width, height, and one byte per pixel, row-major; `None` when the bytes
/// do not decode as an image.
pub uninterp spec fn gray_image_of(bytes: Seq<u8>) -> Option<(u32, u32, Seq<u8>)>;

/// What the `png` crate makes of a 1-bit grayscale raster: a PNG of
/// dimensions `w` by `h` whose image data are the packed `rows`.
pub uninterp spec fn png_1bit_of(w: u32, h: u32, rows: Seq<u8>) -> Seq<u8>;

/// Relies on `image::load_from_memory` and `DynamicImage::to_luma8`:
/// decoding depends on the bytes alone, errs exactly on bytes that are not
/// a supported image, and a grayscale buffer holds width * height one-byte
/// pixels.
#[verifier::external_body]
pub(crate) fn decode_gray(bytes: &Vec<u8>) -> (r: Result<(u32, u32, Vec<u8>), String>)
    ensures
        r matches Ok(t) ==> gray_image_of(bytes@) == Some((t.0, t.1, t.2@))
            && t.2@.len() == t.0 * t.1,
        r matches Err(_) ==> gray_image_of(bytes@) is None,
{
    match image::load_from_memory(bytes) {
        Ok(img) => {
            let g = match img {
                image::DynamicImage::ImageLuma8(g) => g,
                other => other.to_luma8(),
            };
            Ok((g.width(), g.height(), g.into_raw()))
        }
        Err(e) => Err(e.to_string()),
    }
}

/// Relies on `png::Encoder` with grayscale color and bit depth one: the
/// encoded file depends on the dimensions and rows alone, and — writing
/// into memory, with the rows exactly the packed size — the encoder errs
/// exactly on a zero width or height.
#[verifier::external_body]
fn encode_png_1bit(w: u32, h: u32, rows: &Vec<u8>) -> (r: Result<Vec<u8>, String>)
    requires
        rows@.len() == row_bytes(w as int) * h,
    ensures
        r is Ok <==> (w > 0 && h > 0),
        r matches Ok(b) ==> b@ == png_1bit_of(w, h, rows@),
{
    let mut out: Vec<u8> = Vec::new();
    let mut enc = png::Encoder::new(&mut out, w, h);
    enc.set_color(png::ColorType::Grayscale);
    enc.set_depth(png::BitDepth::One);
    let mut writer = enc.write_header().map_err(|e| e.to_string())?;
    writer.write_image_data(rows).map_err(|e| e.to_string())?;
    writer.finish().map_err(|e| e.to_string())?;
    Ok(out)
}

/// The 1-bit PNG a decoded grayscale mask normalizes to.
pub open spec fn spec_mask_png(w: u32, h: u32, px: Seq<u8>) -> Seq<u8> {
    png_1bit_of(w, h, spec_pack(px, w as int, h as int))
}

/// Normalizes a decoded grayscale raster to its 1-bit PNG form: threshold,
/// pack, encode.  Fails exactly on an empty raster.
pub fn mask_png(w: u32, h: u32, px: &Vec<u8>) -> (r: Result<Vec<u8>, String>)
    requires
        px@.len() == w * h,
    ensures
        r is Ok <==> (w > 0 && h > 0),
        r matches Ok(b) ==> b@ == spec_mask_png(w, h, px@),
{
    let rows = pack_mask(px, w, h);
    encode_png_1bit(w, h, &rows)
}

/// Past the row's end every remaining bit is zero.
proof fn lemma_byte_tail_end(px: Seq<u8>, w: int, y: int, k: int, j: int)
    requires
        0 <= j,
        8 * k + j >= w,
        0 <= k,
    ensures
        byte_tail(px, w, y, k, j) == 0,
    decreases 8 - j,
{
    if j < 8 {
        lemma_byte_tail_end(px, w, y, k, j + 1);
    }
}

} // verus!
