//! Image-entry names: mask/final naming, validation, and the extension
//! to MIME-type mapping used when importing originals.

use vstd::prelude::*;
use crate::bytes::{push_all, lower, ends_with_lower};

verus! {

/// A name may be used as an archive entry key only if it cannot escape the
/// entry's folder: nonempty, within what a zip entry name can hold, and
/// free of path separators, NUL and the `.`/`..` path components.
pub open spec fn valid_name(s: Seq<u8>) -> bool {
    &&& 1 <= s.len() <= 65000
    &&& forall|i: int| 0 <= i < s.len()
        ==> s[i] != '/' as u8 && s[i] != '\\' as u8 && s[i] != 0
    &&& s != seq!['.' as u8]
    &&& s != seq!['.' as u8, '.' as u8]
}

/// Decides `valid_name`.
pub fn is_valid_name(name: &Vec<u8>) -> (r: bool)
    ensures
        r <==> valid_name(name@),
{
    let n = name.len();
    if n < 1 || n > 65000 {
        return false;
    }
    if n == 1 && name[0] == '.' as u8 {
        assert(name@ =~= seq!['.' as u8]);
        return false;
    }
    if n == 2 && name[0] == '.' as u8 && name[1] == '.' as u8 {
        assert(name@ =~= seq!['.' as u8, '.' as u8]);
        return false;
    }
    let mut i: usize = 0;
    while i < n
        invariant
            i <= n == name@.len(),
            forall|j: int| 0 <= j < i
                ==> name@[j] != '/' as u8 && name@[j] != '\\' as u8 && name@[j] != 0,
        decreases n - i,
    {
        let b = name[i];
        if b == '/' as u8 || b == '\\' as u8 || b == 0 {
            return false;
        }
        i += 1;
    }
    if n == 1 {
        assert(name@[0] != '.' as u8 ==> name@ != seq!['.' as u8]);
    }
    assert(name@ != seq!['.' as u8] && name@ != seq!['.' as u8, '.' as u8]) by {
        if name@ == seq!['.' as u8] {
            assert(name@.len() == 1 && name@[0] == '.' as u8);
        }
        if name@ == seq!['.' as u8, '.' as u8] {
            assert(name@.len() == 2 && name@[0] == '.' as u8 && name@[1] == '.' as u8);
        }
    }
    true
}

/// The content types an imported original can be tagged with.
#[derive(Clone, Copy, PartialEq, Eq, Structural, Debug)]
pub enum Mime {
    Png,
    Webp,
    Gif,
    Bmp,
    Tiff,
    Jpeg,
}

/// The textual form of a content type.
pub open spec fn mime_text(m: Mime) -> Seq<u8> {
    match m {
        Mime::Png => seq![
            'i' as u8, 'm' as u8, 'a' as u8, 'g' as u8, 'e' as u8, '/' as u8,
            'p' as u8, 'n' as u8, 'g' as u8,
        ],
        Mime::Webp => seq![
            'i' as u8, 'm' as u8, 'a' as u8, 'g' as u8, 'e' as u8, '/' as u8,
            'w' as u8, 'e' as u8, 'b' as u8, 'p' as u8,
        ],
        Mime::Gif => seq![
            'i' as u8, 'm' as u8, 'a' as u8, 'g' as u8, 'e' as u8, '/' as u8,
            'g' as u8, 'i' as u8, 'f' as u8,
        ],
        Mime::Bmp => seq![
            'i' as u8, 'm' as u8, 'a' as u8, 'g' as u8, 'e' as u8, '/' as u8,
            'b' as u8, 'm' as u8, 'p' as u8,
        ],
        Mime::Tiff => seq![
            'i' as u8, 'm' as u8, 'a' as u8, 'g' as u8, 'e' as u8, '/' as u8,
            't' as u8, 'i' as u8, 'f' as u8, 'f' as u8,
        ],
        Mime::Jpeg => seq![
            'i' as u8, 'm' as u8, 'a' as u8, 'g' as u8, 'e' as u8, '/' as u8,
            'j' as u8, 'p' as u8, 'e' as u8, 'g' as u8,
        ],
    }
}

/// Lowercase suffixes probed by the content-type mapping.
pub open spec fn sfx_png() -> Seq<u8> {
    png_suffix()
}

pub open spec fn sfx_webp() -> Seq<u8> {
    seq!['.' as u8, 'w' as u8, 'e' as u8, 'b' as u8, 'p' as u8]
}

pub open spec fn sfx_gif() -> Seq<u8> {
    seq!['.' as u8, 'g' as u8, 'i' as u8, 'f' as u8]
}

pub open spec fn sfx_bmp() -> Seq<u8> {
    seq!['.' as u8, 'b' as u8, 'm' as u8, 'p' as u8]
}

pub open spec fn sfx_tif() -> Seq<u8> {
    seq!['.' as u8, 't' as u8, 'i' as u8, 'f' as u8]
}

pub open spec fn sfx_tiff() -> Seq<u8> {
    seq!['.' as u8, 't' as u8, 'i' as u8, 'f' as u8, 'f' as u8]
}

/// The content type inferred from a name's extension, matched without regard
/// to ASCII case; anything unrecognized is taken to be JPEG.
pub open spec fn spec_mime_of(name: Seq<u8>) -> Mime {
    let l = lower(name);
    if sfx_png().is_suffix_of(l) {
        Mime::Png
    } else if sfx_webp().is_suffix_of(l) {
        Mime::Webp
    } else if sfx_gif().is_suffix_of(l) {
        Mime::Gif
    } else if sfx_bmp().is_suffix_of(l) {
        Mime::Bmp
    } else if sfx_tif().is_suffix_of(l) || sfx_tiff().is_suffix_of(l) {
        Mime::Tiff
    } else {
        Mime::Jpeg
    }
}

/// Infers the content type of an original from its name.
pub fn mime_for_name(name: &Vec<u8>) -> (m: Mime)
    ensures
        m == spec_mime_of(name@),
{
    let png: Vec<u8> = vec!['.' as u8, 'p' as u8, 'n' as u8, 'g' as u8];
    let webp: Vec<u8> = vec!['.' as u8, 'w' as u8, 'e' as u8, 'b' as u8, 'p' as u8];
    let gif: Vec<u8> = vec!['.' as u8, 'g' as u8, 'i' as u8, 'f' as u8];
    let bmp: Vec<u8> = vec!['.' as u8, 'b' as u8, 'm' as u8, 'p' as u8];
    let tif: Vec<u8> = vec!['.' as u8, 't' as u8, 'i' as u8, 'f' as u8];
    let tiff: Vec<u8> = vec!['.' as u8, 't' as u8, 'i' as u8, 'f' as u8, 'f' as u8];
    proof {
        assert(png@ =~= sfx_png());
        assert(webp@ =~= sfx_webp());
        assert(gif@ =~= sfx_gif());
        assert(bmp@ =~= sfx_bmp());
        assert(tif@ =~= sfx_tif());
        assert(tiff@ =~= sfx_tiff());
    }
    if ends_with_lower(name, &png) {
        Mime::Png
    } else if ends_with_lower(name, &webp) {
        Mime::Webp
    } else if ends_with_lower(name, &gif) {
        Mime::Gif
    } else if ends_with_lower(name, &bmp) {
        Mime::Bmp
    } else if ends_with_lower(name, &tif) || ends_with_lower(name, &tiff) {
        Mime::Tiff
    } else {
        Mime::Jpeg
    }
}

/// The textual form of a content type, as bytes.
pub fn mime_bytes(m: Mime) -> (r: Vec<u8>)
    ensures
        r@ == mime_text(m),
{
    let r: Vec<u8> = match m {
        Mime::Png => vec![
            'i' as u8, 'm' as u8, 'a' as u8, 'g' as u8, 'e' as u8, '/' as u8,
            'p' as u8, 'n' as u8, 'g' as u8,
        ],
        Mime::Webp => vec![
            'i' as u8, 'm' as u8, 'a' as u8, 'g' as u8, 'e' as u8, '/' as u8,
            'w' as u8, 'e' as u8, 'b' as u8, 'p' as u8,
        ],
        Mime::Gif => vec![
            'i' as u8, 'm' as u8, 'a' as u8, 'g' as u8, 'e' as u8, '/' as u8,
            'g' as u8, 'i' as u8, 'f' as u8,
        ],
        Mime::Bmp => vec![
            'i' as u8, 'm' as u8, 'a' as u8, 'g' as u8, 'e' as u8, '/' as u8,
            'b' as u8, 'm' as u8, 'p' as u8,
        ],
        Mime::Tiff => vec![
            'i' as u8, 'm' as u8, 'a' as u8, 'g' as u8, 'e' as u8, '/' as u8,
            't' as u8, 'i' as u8, 'f' as u8, 'f' as u8,
        ],
        Mime::Jpeg => vec![
            'i' as u8, 'm' as u8, 'a' as u8, 'g' as u8, 'e' as u8, '/' as u8,
            'j' as u8, 'p' as u8, 'e' as u8, 'g' as u8,
        ],
    };
    proof {
        assert(r@ =~= mime_text(m));
    }
    r
}

/// The `.png` suffix, as bytes.
pub open spec fn png_suffix() -> Seq<u8> {
    seq!['.' as u8, 'p' as u8, 'n' as u8, 'g' as u8]
}

/// Index of the last `.` in `s`, if any.
pub open spec fn last_dot(s: Seq<u8>) -> Option<int>
    decreases s.len(),
{
    if s.len() == 0 {
        None
    } else if s[s.len() - 1] == '.' as u8 {
        Some(s.len() - 1)
    } else {
        last_dot(s.drop_last())
    }
}

/// The name of the mask (or final) entry for an image entry: the part before
/// the last `.` — or the whole name, if it has no `.` — followed by `.png`.
pub open spec fn spec_to_png_name(s: Seq<u8>) -> Seq<u8> {
    match last_dot(s) {
        Some(i) => s.subrange(0, i) + png_suffix(),
        None => s + png_suffix(),
    }
}

pub proof fn lemma_last_dot_in_range(s: Seq<u8>)
    ensures
        match last_dot(s) {
            Some(i) => 0 <= i < s.len() && s[i] == '.' as u8,
            None => true,
        },
    decreases s.len(),
{
    if s.len() > 0 && s[s.len() - 1] != '.' as u8 {
        lemma_last_dot_in_range(s.drop_last());
    }
}

/// Position of the last `.` of `name`, if any.
pub fn last_dot_index(name: &Vec<u8>) -> (r: Option<usize>)
    ensures
        match r {
            Some(j) => last_dot(name@) == Some(j as int),
            None => last_dot(name@) is None,
        },
{
    let mut i: usize = name.len();
    proof {
        assert(name@.subrange(0, name@.len() as int) =~= name@);
    }
    while i > 0
        invariant
            i <= name@.len(),
            last_dot(name@) == last_dot(name@.subrange(0, i as int)),
        decreases i,
    {
        if name[i - 1] == '.' as u8 {
            proof {
                let pre = name@.subrange(0, i as int);
                assert(pre[pre.len() - 1] == '.' as u8);
            }
            return Some(i - 1);
        }
        proof {
            let pre = name@.subrange(0, i as int);
            assert(pre[pre.len() - 1] != '.' as u8);
            assert(pre.drop_last() =~= name@.subrange(0, i - 1));
        }
        i -= 1;
    }
    proof {
        assert(name@.subrange(0, 0) =~= Seq::<u8>::empty());
    }
    None
}

/// Copies `name[0..n]` into a fresh vector.
fn copy_prefix(name: &Vec<u8>, n: usize) -> (r: Vec<u8>)
    requires
        n <= name@.len(),
    ensures
        r@ == name@.subrange(0, n as int),
{
    let mut out: Vec<u8> = Vec::new();
    let mut j: usize = 0;
    while j < n
        invariant
            j <= n <= name@.len(),
            out@ == name@.subrange(0, j as int),
        decreases n - j,
    {
        out.push(name[j]);
        proof {
            assert(name@.subrange(0, j as int) + seq![name@[j as int]]
                =~= name@.subrange(0, j + 1));
        }
        j += 1;
    }
    out
}

/// Replaces the extension of `name` with `.png` (appends `.png` when `name`
/// has no extension).  Mask and final entries of an image are stored under
/// this name.
pub fn to_png_name(name: &Vec<u8>) -> (r: Vec<u8>)
    ensures
        r@ == spec_to_png_name(name@),
{
    let stem_len: usize = match last_dot_index(name) {
        Some(j) => {
            proof {
                lemma_last_dot_in_range(name@);
            }
            j
        }
        None => name.len(),
    };
    let mut out = copy_prefix(name, stem_len);
    let ext: Vec<u8> = vec!['.' as u8, 'p' as u8, 'n' as u8, 'g' as u8];
    proof {
        assert(ext@ =~= png_suffix());
        if last_dot(name@) is None {
            assert(name@.subrange(0, name@.len() as int) =~= name@);
        }
    }
    push_all(&mut out, &ext);
    out
}

} // verus!
