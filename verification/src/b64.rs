//! Base64 encoding and the `data:<mime>;base64,<payload>` inline form.
//!
//! The encoding itself is done by the `base64` crate behind two trusted
//! wrappers; everything around it — splitting a data URL at its first comma,
//! assembling one from a content type and a payload — is verified.

use vstd::prelude::*;
use base64::Engine;
use crate::bytes::push_all;
use crate::names::{Mime, mime_text, mime_bytes};

verus! {

/// What base64's standard alphabet makes of `data`.
pub uninterp spec fn b64_of(data: Seq<u8>) -> Seq<u8>;

/// Whether the encoded form of `b` fits in `usize`: the exact condition
/// under which base64's `encoded_len` succeeds.
pub open spec fn encodable(b: Seq<u8>) -> bool {
    b.len() / 3 * 4 <= usize::MAX && (b.len() % 3 == 0 || b.len() / 3 * 4 + 4 <= usize::MAX)
}

/// What base64's standard engine decodes `text` to; `None` when `text` is
/// not valid standard base64.
pub uninterp spec fn b64_decode_of(text: Seq<u8>) -> Option<Seq<u8>>;

/// Relies on base64's `STANDARD` engine: `encode` depends on the input bytes
/// alone, and `decode` of an encoded value returns the input bytes.  `None`
/// comes only when the encoded length would not fit in `usize`
/// (`encoded_len` returns `None`), which `encode` would refuse by panic.
#[verifier::external_body]
fn b64_encode(data: &Vec<u8>) -> (r: Option<Vec<u8>>)
    ensures
        r is Some <==> encodable(data@),
        r matches Some(e) ==> e@ == b64_of(data@) && b64_decode_of(e@) == Some(data@),
{
    if base64::encoded_len(data.len(), true).is_none() {
        return None;
    }
    Some(base64::engine::general_purpose::STANDARD.encode(data).into_bytes())
}

/// Relies on base64's `STANDARD` engine: `decode` depends on the input bytes
/// alone and errs exactly on inputs that are not valid standard base64.
#[verifier::external_body]
fn b64_decode_raw(text: &Vec<u8>) -> (r: Option<Vec<u8>>)
    ensures
        match r {
            Some(d) => b64_decode_of(text@) == Some(d@),
            None => b64_decode_of(text@) is None,
        },
{
    match base64::engine::general_purpose::STANDARD.decode(text) {
        Ok(d) => Some(d),
        Err(_) => None,
    }
}

/// Encodes `data` as standard base64.  `None` only when the encoded form
/// would be longer than `usize` can measure.
pub fn encode_base64(data: &Vec<u8>) -> (r: Option<Vec<u8>>)
    ensures
        r is Some <==> encodable(data@),
        r matches Some(e) ==> e@ == b64_of(data@) && b64_decode_of(e@) == Some(data@),
{
    b64_encode(data)
}

/// Decodes standard base64; `None` on anything the standard engine rejects.
pub fn decode_base64(text: &Vec<u8>) -> (r: Option<Vec<u8>>)
    ensures
        match r {
            Some(d) => b64_decode_of(text@) == Some(d@),
            None => b64_decode_of(text@) is None,
        },
{
    b64_decode_raw(text)
}

/// Index of the first `,` in `s`, if any.
pub open spec fn first_comma(s: Seq<u8>) -> Option<int>
    decreases s.len(),
{
    if s.len() == 0 {
        None
    } else if s[0] == ',' as u8 {
        Some(0)
    } else {
        match first_comma(s.drop_first()) {
            Some(i) => Some(i + 1),
            None => None,
        }
    }
}

/// The first comma, when there is one, lies in the string and is a comma.
pub proof fn lemma_first_comma_in_range(s: Seq<u8>)
    ensures
        match first_comma(s) {
            Some(i) => 0 <= i < s.len() && s[i] == ',' as u8,
            None => true,
        },
    decreases s.len(),
{
    if s.len() > 0 && s[0] != ',' as u8 {
        lemma_first_comma_in_range(s.drop_first());
    }
}

/// The base64 payload of an inline data URL: everything after the first `,`.
pub open spec fn spec_payload_of(s: Seq<u8>) -> Option<Seq<u8>> {
    match first_comma(s) {
        Some(i) => Some(s.subrange(i + 1, s.len() as int)),
        None => None,
    }
}

/// The bytes an inline data URL carries: the decoded payload after the first
/// `,`, or nothing when there is no `,` or the payload is not valid base64.
pub open spec fn spec_data_url_bytes(s: Seq<u8>) -> Option<Seq<u8>> {
    match spec_payload_of(s) {
        Some(p) => b64_decode_of(p),
        None => None,
    }
}

proof fn lemma_first_comma_prefix(s: Seq<u8>, i: int)
    requires
        0 <= i <= s.len(),
        forall|j: int| 0 <= j < i ==> s[j] != ',' as u8,
    ensures
        ({
            let rest = first_comma(s.subrange(i, s.len() as int));
            first_comma(s) == match rest {
                Some(k) => Some(k + i),
                None => None::<int>,
            }
        }),
    decreases i,
{
    if i == 0 {
        assert(s.subrange(0, s.len() as int) =~= s);
    } else {
        assert(s[0] != ',' as u8);
        assert(s.drop_first() =~= s.subrange(1, s.len() as int));
        lemma_first_comma_prefix(s.drop_first(), i - 1);
        assert(s.drop_first().subrange(i - 1, s.drop_first().len() as int)
            =~= s.subrange(i, s.len() as int));
    }
}

/// Extracts the payload of an inline data URL (everything after the first
/// `,`), if the URL has one.
pub fn data_url_payload(s: &Vec<u8>) -> (r: Option<Vec<u8>>)
    ensures
        match r {
            Some(p) => spec_payload_of(s@) == Some(p@),
            None => spec_payload_of(s@) is None,
        },
{
    let n = s.len();
    let mut i: usize = 0;
    while i < n
        invariant
            i <= n == s@.len(),
            forall|j: int| 0 <= j < i ==> s@[j] != ',' as u8,
        decreases n - i,
    {
        if s[i] == ',' as u8 {
            proof {
                let tail = s@.subrange(i as int, n as int);
                assert(tail[0] == ',' as u8);
                lemma_first_comma_prefix(s@, i as int);
                assert(first_comma(s@) == Some(i as int));
            }
            let mut p: Vec<u8> = Vec::new();
            let mut j: usize = i + 1;
            while j < n
                invariant
                    i + 1 <= j <= n == s@.len(),
                    p@ == s@.subrange(i + 1, j as int),
                decreases n - j,
            {
                p.push(s[j]);
                proof {
                    assert(s@.subrange(i + 1, j as int) + seq![s@[j as int]]
                        =~= s@.subrange(i + 1, j + 1));
                }
                j += 1;
            }
            return Some(p);
        }
        i += 1;
    }
    proof {
        lemma_first_comma_prefix(s@, n as int);
        assert(s@.subrange(n as int, n as int) =~= Seq::<u8>::empty());
    }
    None
}

/// Decodes the bytes an inline data URL carries.
pub fn decode_data_url(s: &Vec<u8>) -> (r: Option<Vec<u8>>)
    ensures
        match r {
            Some(d) => spec_data_url_bytes(s@) == Some(d@),
            None => spec_data_url_bytes(s@) is None,
        },
{
    match data_url_payload(s) {
        Some(p) => decode_base64(&p),
        None => None,
    }
}

/// `data:` as bytes.
pub open spec fn data_scheme() -> Seq<u8> {
    seq!['d' as u8, 'a' as u8, 't' as u8, 'a' as u8, ':' as u8]
}

/// `;base64,` as bytes.
pub open spec fn b64_marker() -> Seq<u8> {
    seq![
        ';' as u8, 'b' as u8, 'a' as u8, 's' as u8, 'e' as u8, '6' as u8,
        '4' as u8, ',' as u8,
    ]
}

/// The inline data URL carrying `data` with content type `m`:
/// `data:<mime>;base64,<encoded>`.
pub open spec fn spec_data_url(m: Mime, data: Seq<u8>) -> Seq<u8> {
    data_scheme() + mime_text(m) + b64_marker() + b64_of(data)
}

/// No content type's text holds a comma.
proof fn lemma_mime_no_comma(m: Mime)
    ensures
        forall|j: int| 0 <= j < mime_text(m).len() ==> mime_text(m)[j] != ',' as u8,
{
    match m {
        Mime::Png => {
            assert(forall|j: int|
                0 <= j < mime_text(Mime::Png).len() ==> mime_text(Mime::Png)[j] != ',' as u8);
        }
        Mime::Webp => {
            assert(forall|j: int|
                0 <= j < mime_text(Mime::Webp).len() ==> mime_text(Mime::Webp)[j] != ',' as u8);
        }
        Mime::Gif => {
            assert(forall|j: int|
                0 <= j < mime_text(Mime::Gif).len() ==> mime_text(Mime::Gif)[j] != ',' as u8);
        }
        Mime::Bmp => {
            assert(forall|j: int|
                0 <= j < mime_text(Mime::Bmp).len() ==> mime_text(Mime::Bmp)[j] != ',' as u8);
        }
        Mime::Tiff => {
            assert(forall|j: int|
                0 <= j < mime_text(Mime::Tiff).len() ==> mime_text(Mime::Tiff)[j] != ',' as u8);
        }
        Mime::Jpeg => {
            assert(forall|j: int|
                0 <= j < mime_text(Mime::Jpeg).len() ==> mime_text(Mime::Jpeg)[j] != ',' as u8);
        }
    }
}

/// The payload of `data:<mime>;base64,<enc>` is `<enc>`: the scheme and
/// content type hold no comma, so the marker's comma is the first.
pub proof fn lemma_data_url_payload(m: Mime, enc: Seq<u8>)
    ensures
        spec_payload_of(data_scheme() + mime_text(m) + b64_marker() + enc) == Some(enc),
{
    let pre = data_scheme() + mime_text(m) + b64_marker();
    let url = data_scheme() + mime_text(m) + b64_marker() + enc;
    assert(url =~= pre + enc);
    lemma_mime_no_comma(m);
    assert(forall|j: int| 0 <= j < data_scheme().len() ==> data_scheme()[j] != ',' as u8);
    assert(forall|j: int| 0 <= j < b64_marker().len() - 1 ==> b64_marker()[j] != ',' as u8);
    assert forall|j: int| 0 <= j < pre.len() - 1 implies url[j] != ',' as u8 by {
        if j < data_scheme().len() {
            assert(url[j] == data_scheme()[j]);
        } else if j < data_scheme().len() + mime_text(m).len() {
            assert(url[j] == mime_text(m)[j - data_scheme().len()]);
        } else {
            assert(url[j] == b64_marker()[j - data_scheme().len() - mime_text(m).len()]);
        }
    }
    lemma_first_comma_prefix(url, pre.len() - 1);
    let tail = url.subrange(pre.len() - 1, url.len() as int);
    assert(url[pre.len() - 1] == b64_marker()[b64_marker().len() - 1]);
    assert(tail[0] == ',' as u8);
    assert(first_comma(tail) == Some(0int));
    assert(first_comma(url) == Some(pre.len() - 1));
    assert(url.subrange(pre.len() as int, url.len() as int) =~= enc);
}

/// Builds the inline data URL for `data` with content type `m`: the URL's
/// payload decodes back to `data`.  `None` only when the base64 form would
/// be longer than `usize` can measure.
pub fn make_data_url(m: Mime, data: &Vec<u8>) -> (r: Option<Vec<u8>>)
    ensures
        r is Some <==> encodable(data@),
        r matches Some(u) ==> u@ == spec_data_url(m, data@)
            && spec_data_url_bytes(u@) == Some(data@),
{
    let encoded = match b64_encode(data) {
        Some(e) => e,
        None => {
            return None;
        }
    };
    let mut u: Vec<u8> = vec!['d' as u8, 'a' as u8, 't' as u8, 'a' as u8, ':' as u8];
    proof {
        assert(u@ =~= data_scheme());
    }
    let mime = mime_bytes(m);
    push_all(&mut u, &mime);
    let marker: Vec<u8> = vec![
        ';' as u8, 'b' as u8, 'a' as u8, 's' as u8, 'e' as u8, '6' as u8,
        '4' as u8, ',' as u8,
    ];
    proof {
        assert(marker@ =~= b64_marker());
    }
    push_all(&mut u, &marker);
    push_all(&mut u, &encoded);
    proof {
        lemma_data_url_payload(m, b64_of(data@));
        assert(u@ == data_scheme() + mime_text(m) + b64_marker() + b64_of(data@));
    }
    Some(u)
}

} // verus!
