//! The remote-service side of the backend: request payloads, endpoint
//! URLs, and what each command makes of a response.
//!
//! Every payload is JSON built byte by byte — object keys in sorted order,
//! strings escaped exactly as the wire format asks — and every response
//! rule is stated over the status code and body bytes: success is
//! `200..=299`, an error carries the numeric status and the body verbatim.

use vstd::prelude::*;
use vstd::string::StrSliceExecFns;
use crate::bytes::{push_all, spec_dec, dec_u32, spec_dec_i32, dec_i32, clone_bytes};
use crate::jsondoc::{
    json_pretty_of, json_pretty, json_has_key_of, json_has_key, json_get_str_of, json_get_str,
    json_as_str_of, json_as_str,
};

verus! {

// ---------------------------------------------------------------------------
// JSON text: escaping and scalar rendering
// ---------------------------------------------------------------------------

/// A hex digit, lowercase.
pub open spec fn hex_digit(d: u8) -> u8 {
    if d < 10 {
        (48 + d) as u8
    } else {
        (87 + d) as u8
    }
}

/// The escape of one byte inside a JSON string: quote and backslash
/// escaped, the named controls short, other controls as `\u00..`.
pub open spec fn esc_byte(b: u8) -> Seq<u8> {
    if b == '"' as u8 {
        seq!['\\' as u8, '"' as u8]
    } else if b == '\\' as u8 {
        seq!['\\' as u8, '\\' as u8]
    } else if b == 8 {
        seq!['\\' as u8, 'b' as u8]
    } else if b == 9 {
        seq!['\\' as u8, 't' as u8]
    } else if b == 10 {
        seq!['\\' as u8, 'n' as u8]
    } else if b == 12 {
        seq!['\\' as u8, 'f' as u8]
    } else if b == 13 {
        seq!['\\' as u8, 'r' as u8]
    } else if b < 32 {
        seq![
            '\\' as u8, 'u' as u8, '0' as u8, '0' as u8, hex_digit(b / 16),
            hex_digit(b % 16),
        ]
    } else {
        seq![b]
    }
}

/// A byte string escaped for the inside of a JSON string.
pub open spec fn json_escaped(s: Seq<u8>) -> Seq<u8>
    decreases s.len(),
{
    if s.len() == 0 {
        Seq::empty()
    } else {
        json_escaped(s.drop_last()) + esc_byte(s.last())
    }
}

/// A JSON string: quotes around the escaped bytes.
pub open spec fn spec_quoted(s: Seq<u8>) -> Seq<u8> {
    seq!['"' as u8] + json_escaped(s) + seq!['"' as u8]
}

/// The JSON string form of `s`.
fn quoted_bytes(s: &Vec<u8>) -> (r: Vec<u8>)
    ensures
        r@ == spec_quoted(s@),
{
    let mut out: Vec<u8> = Vec::new();
    out.push('"' as u8);
    let ghost start = out@;
    let n = s.len();
    let mut i: usize = 0;
    proof {
        assert(s@.subrange(0, 0) =~= Seq::<u8>::empty());
        assert(out@ =~= seq!['"' as u8]);
    }
    while i < n
        invariant
            n == s@.len(),
            i <= n,
            out@ == seq!['"' as u8] + json_escaped(s@.subrange(0, i as int)),
        decreases n - i,
    {
        let b = s[i];
        let ghost pre = s@.subrange(0, i as int);
        if b == '"' as u8 {
            out.push('\\' as u8);
            out.push('"' as u8);
        } else if b == '\\' as u8 {
            out.push('\\' as u8);
            out.push('\\' as u8);
        } else if b == 8 {
            out.push('\\' as u8);
            out.push('b' as u8);
        } else if b == 9 {
            out.push('\\' as u8);
            out.push('t' as u8);
        } else if b == 10 {
            out.push('\\' as u8);
            out.push('n' as u8);
        } else if b == 12 {
            out.push('\\' as u8);
            out.push('f' as u8);
        } else if b == 13 {
            out.push('\\' as u8);
            out.push('r' as u8);
        } else if b < 32 {
            out.push('\\' as u8);
            out.push('u' as u8);
            out.push('0' as u8);
            out.push('0' as u8);
            let hi = b / 16;
            let lo = b % 16;
            out.push(if hi < 10 { 48 + hi } else { 87 + hi });
            out.push(if lo < 10 { 48 + lo } else { 87 + lo });
        } else {
            out.push(b);
        }
        proof {
            assert(s@.subrange(0, i + 1).drop_last() =~= pre);
            assert(s@.subrange(0, i + 1).last() == s@[i as int]);
            assert(out@ =~= seq!['"' as u8] + json_escaped(s@.subrange(0, i + 1)));
        }
        i += 1;
    }
    proof {
        assert(s@.subrange(0, n as int) =~= s@);
    }
    out.push('"' as u8);
    proof {
        assert(out@ =~= spec_quoted(s@));
    }
    out
}

/// `true` or `false`.
pub open spec fn spec_bool_text(b: bool) -> Seq<u8> {
    if b {
        seq!['t' as u8, 'r' as u8, 'u' as u8, 'e' as u8]
    } else {
        seq!['f' as u8, 'a' as u8, 'l' as u8, 's' as u8, 'e' as u8]
    }
}

/// `null`.
pub open spec fn spec_null_text() -> Seq<u8> {
    seq!['n' as u8, 'u' as u8, 'l' as u8, 'l' as u8]
}

fn bool_bytes(b: bool) -> (r: Vec<u8>)
    ensures
        r@ == spec_bool_text(b),
{
    let r: Vec<u8> = if b {
        vec!['t' as u8, 'r' as u8, 'u' as u8, 'e' as u8]
    } else {
        vec!['f' as u8, 'a' as u8, 'l' as u8, 's' as u8, 'e' as u8]
    };
    proof {
        assert(r@ =~= spec_bool_text(b));
    }
    r
}

fn null_bytes() -> (r: Vec<u8>)
    ensures
        r@ == spec_null_text(),
{
    let r: Vec<u8> = vec!['n' as u8, 'u' as u8, 'l' as u8, 'l' as u8];
    proof {
        assert(r@ =~= spec_null_text());
    }
    r
}

/// A JSON array of strings.
pub open spec fn spec_str_array(xs: Seq<Seq<u8>>) -> Seq<u8>
    decreases xs.len(),
{
    if xs.len() == 0 {
        seq!['[' as u8, ']' as u8]
    } else if xs.len() == 1 {
        seq!['[' as u8] + spec_quoted(xs[0]) + seq![']' as u8]
    } else {
        spec_str_array(xs.drop_last()).drop_last() + seq![',' as u8] + spec_quoted(xs.last())
            + seq![']' as u8]
    }
}

/// The byte-sequence views of a list of byte vectors.
pub open spec fn vecs_view(s: Seq<Vec<u8>>) -> Seq<Seq<u8>> {
    s.map_values(|v: Vec<u8>| v@)
}

/// Every rendered array ends with `]`.
proof fn lemma_str_array_shape(xs: Seq<Seq<u8>>)
    ensures
        spec_str_array(xs).len() > 0,
        spec_str_array(xs).last() == ']' as u8,
{
}

proof fn lemma_int_array_shape(xs: Seq<int>)
    ensures
        spec_int_array(xs).len() > 0,
        spec_int_array(xs).last() == ']' as u8,
{
}

proof fn lemma_box_array_shape(xs: Seq<Seq<int>>)
    ensures
        spec_box_array(xs).len() > 0,
        spec_box_array(xs).last() == ']' as u8,
{
}

/// The JSON array of the strings in `xs`.
fn str_array_bytes(xs: &Vec<Vec<u8>>) -> (r: Vec<u8>)
    ensures
        r@ == spec_str_array(vecs_view(xs@)),
{
    let mut out: Vec<u8> = Vec::new();
    out.push('[' as u8);
    let n = xs.len();
    let mut i: usize = 0;
    while i < n
        invariant
            n == xs@.len(),
            i <= n,
            i == 0 ==> out@ == seq!['[' as u8],
            i > 0 ==> out@ + seq![']' as u8] == spec_str_array(
                vecs_view(xs@).subrange(0, i as int),
            ),
        decreases n - i,
    {
        let ghost o0 = out@;
        if i > 0 {
            out.push(',' as u8);
        }
        let q = quoted_bytes(&xs[i]);
        push_all(&mut out, &q);
        proof {
            let vv = vecs_view(xs@);
            let prev = vv.subrange(0, i as int);
            assert(vv.subrange(0, i + 1).drop_last() =~= prev);
            assert(vv.subrange(0, i + 1).last() == vv[i as int]);
            assert(vv[i as int] == xs@[i as int]@);
            if i == 0 {
                assert(vv.subrange(0, 1) =~= seq![vv[0]]);
                assert(out@ + seq![']' as u8] =~= spec_str_array(vv.subrange(0, 1)));
            } else {
                lemma_str_array_shape(prev);
                assert(o0 =~= spec_str_array(prev).drop_last());
                assert(out@ + seq![']' as u8] =~= spec_str_array(vv.subrange(0, i + 1)));
            }
        }
        i += 1;
    }
    out.push(']' as u8);
    proof {
        if n == 0 {
            assert(out@ =~= spec_str_array(vecs_view(xs@)));
        } else {
            assert(vecs_view(xs@).subrange(0, n as int) =~= vecs_view(xs@));
            assert(out@ =~= spec_str_array(vecs_view(xs@)));
        }
    }
    out
}

/// A JSON array of numbers.
pub open spec fn spec_int_array(xs: Seq<int>) -> Seq<u8>
    decreases xs.len(),
{
    if xs.len() == 0 {
        seq!['[' as u8, ']' as u8]
    } else if xs.len() == 1 {
        seq!['[' as u8] + spec_dec_i32(xs[0]) + seq![']' as u8]
    } else {
        spec_int_array(xs.drop_last()).drop_last() + seq![',' as u8] + spec_dec_i32(xs.last())
            + seq![']' as u8]
    }
}

/// The integer views of a list of numbers.
pub open spec fn ints_view(s: Seq<i32>) -> Seq<int> {
    s.map_values(|x: i32| x as int)
}

/// The JSON array of the numbers in `xs`.
fn int_array_bytes(xs: &Vec<i32>) -> (r: Vec<u8>)
    ensures
        r@ == spec_int_array(ints_view(xs@)),
{
    let mut out: Vec<u8> = Vec::new();
    out.push('[' as u8);
    let n = xs.len();
    let mut i: usize = 0;
    while i < n
        invariant
            n == xs@.len(),
            i <= n,
            i == 0 ==> out@ == seq!['[' as u8],
            i > 0 ==> out@ + seq![']' as u8] == spec_int_array(
                ints_view(xs@).subrange(0, i as int),
            ),
        decreases n - i,
    {
        let ghost o0 = out@;
        if i > 0 {
            out.push(',' as u8);
        }
        let d = dec_i32(xs[i]);
        push_all(&mut out, &d);
        proof {
            let vv = ints_view(xs@);
            let prev = vv.subrange(0, i as int);
            assert(vv.subrange(0, i + 1).drop_last() =~= prev);
            assert(vv.subrange(0, i + 1).last() == vv[i as int]);
            if i == 0 {
                assert(vv.subrange(0, 1) =~= seq![vv[0]]);
                assert(out@ + seq![']' as u8] =~= spec_int_array(vv.subrange(0, 1)));
            } else {
                lemma_int_array_shape(prev);
                assert(o0 =~= spec_int_array(prev).drop_last());
                assert(out@ + seq![']' as u8] =~= spec_int_array(vv.subrange(0, i + 1)));
            }
        }
        i += 1;
    }
    out.push(']' as u8);
    proof {
        if n == 0 {
            assert(out@ =~= spec_int_array(ints_view(xs@)));
        } else {
            assert(ints_view(xs@).subrange(0, n as int) =~= ints_view(xs@));
            assert(out@ =~= spec_int_array(ints_view(xs@)));
        }
    }
    out
}

/// A JSON array of number arrays.
pub open spec fn spec_box_array(xs: Seq<Seq<int>>) -> Seq<u8>
    decreases xs.len(),
{
    if xs.len() == 0 {
        seq!['[' as u8, ']' as u8]
    } else if xs.len() == 1 {
        seq!['[' as u8] + spec_int_array(xs[0]) + seq![']' as u8]
    } else {
        spec_box_array(xs.drop_last()).drop_last() + seq![',' as u8] + spec_int_array(xs.last())
            + seq![']' as u8]
    }
}

/// The integer views of a list of number lists.
pub open spec fn boxes_view(s: Seq<Vec<i32>>) -> Seq<Seq<int>> {
    s.map_values(|v: Vec<i32>| ints_view(v@))
}

/// The JSON array of the number arrays in `xs`.
fn box_array_bytes(xs: &Vec<Vec<i32>>) -> (r: Vec<u8>)
    ensures
        r@ == spec_box_array(boxes_view(xs@)),
{
    let mut out: Vec<u8> = Vec::new();
    out.push('[' as u8);
    let n = xs.len();
    let mut i: usize = 0;
    while i < n
        invariant
            n == xs@.len(),
            i <= n,
            i == 0 ==> out@ == seq!['[' as u8],
            i > 0 ==> out@ + seq![']' as u8] == spec_box_array(
                boxes_view(xs@).subrange(0, i as int),
            ),
        decreases n - i,
    {
        let ghost o0 = out@;
        if i > 0 {
            out.push(',' as u8);
        }
        let a = int_array_bytes(&xs[i]);
        push_all(&mut out, &a);
        proof {
            let vv = boxes_view(xs@);
            let prev = vv.subrange(0, i as int);
            assert(vv.subrange(0, i + 1).drop_last() =~= prev);
            assert(vv.subrange(0, i + 1).last() == vv[i as int]);
            assert(vv[i as int] == ints_view(xs@[i as int]@));
            if i == 0 {
                assert(vv.subrange(0, 1) =~= seq![vv[0]]);
                assert(out@ + seq![']' as u8] =~= spec_box_array(vv.subrange(0, 1)));
            } else {
                lemma_box_array_shape(prev);
                assert(o0 =~= spec_box_array(prev).drop_last());
                assert(out@ + seq![']' as u8] =~= spec_box_array(vv.subrange(0, i + 1)));
            }
        }
        i += 1;
    }
    out.push(']' as u8);
    proof {
        if n == 0 {
            assert(out@ =~= spec_box_array(boxes_view(xs@)));
        } else {
            assert(boxes_view(xs@).subrange(0, n as int) =~= boxes_view(xs@));
            assert(out@ =~= spec_box_array(boxes_view(xs@)));
        }
    }
    out
}

// ---------------------------------------------------------------------------
// Keys, defaults and message fragments
// ---------------------------------------------------------------------------

/// `image_data`.
pub open spec fn k_image_data_key() -> Seq<u8> {
    seq![
        'i' as u8, 'm' as u8, 'a' as u8, 'g' as u8, 'e' as u8, '_' as u8, 'd' as u8,
        'a' as u8, 't' as u8, 'a' as u8,
    ]
}

fn image_data_key_vec() -> (r: Vec<u8>)
    ensures
        r@ == k_image_data_key(),
{
    let r: Vec<u8> = vec![
        'i' as u8, 'm' as u8, 'a' as u8, 'g' as u8, 'e' as u8, '_' as u8, 'd' as u8,
        'a' as u8, 't' as u8, 'a' as u8,
    ];
    proof {
        assert(r@ =~= k_image_data_key());
    }
    r
}

/// `mask_data`.
pub open spec fn k_mask_data_key() -> Seq<u8> {
    seq![
        'm' as u8, 'a' as u8, 's' as u8, 'k' as u8, '_' as u8, 'd' as u8, 'a' as u8,
        't' as u8, 'a' as u8,
    ]
}

fn mask_data_key_vec() -> (r: Vec<u8>)
    ensures
        r@ == k_mask_data_key(),
{
    let r: Vec<u8> = vec![
        'm' as u8, 'a' as u8, 's' as u8, 'k' as u8, '_' as u8, 'd' as u8, 'a' as u8,
        't' as u8, 'a' as u8,
    ];
    proof {
        assert(r@ =~= k_mask_data_key());
    }
    r
}

/// `images_data`.
pub open spec fn k_images_data_key() -> Seq<u8> {
    seq![
        'i' as u8, 'm' as u8, 'a' as u8, 'g' as u8, 'e' as u8, 's' as u8, '_' as u8,
        'd' as u8, 'a' as u8, 't' as u8, 'a' as u8,
    ]
}

fn images_data_key_vec() -> (r: Vec<u8>)
    ensures
        r@ == k_images_data_key(),
{
    let r: Vec<u8> = vec![
        'i' as u8, 'm' as u8, 'a' as u8, 'g' as u8, 'e' as u8, 's' as u8, '_' as u8,
        'd' as u8, 'a' as u8, 't' as u8, 'a' as u8,
    ];
    proof {
        assert(r@ =~= k_images_data_key());
    }
    r
}

/// `engine`.
pub open spec fn k_engine_key() -> Seq<u8> {
    seq![
        'e' as u8, 'n' as u8, 'g' as u8, 'i' as u8, 'n' as u8, 'e' as u8,
    ]
}

fn engine_key_vec() -> (r: Vec<u8>)
    ensures
        r@ == k_engine_key(),
{
    let r: Vec<u8> = vec![
        'e' as u8, 'n' as u8, 'g' as u8, 'i' as u8, 'n' as u8, 'e' as u8,
    ];
    proof {
        assert(r@ =~= k_engine_key());
    }
    r
}

/// `auto_rotate`.
pub open spec fn k_auto_rotate_key() -> Seq<u8> {
    seq![
        'a' as u8, 'u' as u8, 't' as u8, 'o' as u8, '_' as u8, 'r' as u8, 'o' as u8,
        't' as u8, 'a' as u8, 't' as u8, 'e' as u8,
    ]
}

fn auto_rotate_key_vec() -> (r: Vec<u8>)
    ensures
        r@ == k_auto_rotate_key(),
{
    let r: Vec<u8> = vec![
        'a' as u8, 'u' as u8, 't' as u8, 'o' as u8, '_' as u8, 'r' as u8, 'o' as u8,
        't' as u8, 'a' as u8, 't' as u8, 'e' as u8,
    ];
    proof {
        assert(r@ =~= k_auto_rotate_key());
    }
    r
}

/// `langs`.
pub open spec fn k_langs_key() -> Seq<u8> {
    seq![
        'l' as u8, 'a' as u8, 'n' as u8, 'g' as u8, 's' as u8,
    ]
}

fn langs_key_vec() -> (r: Vec<u8>)
    ensures
        r@ == k_langs_key(),
{
    let r: Vec<u8> = vec![
        'l' as u8, 'a' as u8, 'n' as u8, 'g' as u8, 's' as u8,
    ];
    proof {
        assert(r@ =~= k_langs_key());
    }
    r
}

/// `boxes`.
pub open spec fn k_boxes_key() -> Seq<u8> {
    seq![
        'b' as u8, 'o' as u8, 'x' as u8, 'e' as u8, 's' as u8,
    ]
}

fn boxes_key_vec() -> (r: Vec<u8>)
    ensures
        r@ == k_boxes_key(),
{
    let r: Vec<u8> = vec![
        'b' as u8, 'o' as u8, 'x' as u8, 'e' as u8, 's' as u8,
    ];
    proof {
        assert(r@ =~= k_boxes_key());
    }
    r
}

/// `dilate`.
pub open spec fn k_dilate_key() -> Seq<u8> {
    seq![
        'd' as u8, 'i' as u8, 'l' as u8, 'a' as u8, 't' as u8, 'e' as u8,
    ]
}

fn dilate_key_vec() -> (r: Vec<u8>)
    ensures
        r@ == k_dilate_key(),
{
    let r: Vec<u8> = vec![
        'd' as u8, 'i' as u8, 'l' as u8, 'a' as u8, 't' as u8, 'e' as u8,
    ];
    proof {
        assert(r@ =~= k_dilate_key());
    }
    r
}

/// `model`.
pub open spec fn k_model_key() -> Seq<u8> {
    seq![
        'm' as u8, 'o' as u8, 'd' as u8, 'e' as u8, 'l' as u8,
    ]
}

fn model_key_vec() -> (r: Vec<u8>)
    ensures
        r@ == k_model_key(),
{
    let r: Vec<u8> = vec![
        'm' as u8, 'o' as u8, 'd' as u8, 'e' as u8, 'l' as u8,
    ];
    proof {
        assert(r@ =~= k_model_key());
    }
    r
}

/// `text`.
pub open spec fn k_text_key() -> Seq<u8> {
    seq![
        't' as u8, 'e' as u8, 'x' as u8, 't' as u8,
    ]
}

fn text_key_vec() -> (r: Vec<u8>)
    ensures
        r@ == k_text_key(),
{
    let r: Vec<u8> = vec![
        't' as u8, 'e' as u8, 'x' as u8, 't' as u8,
    ];
    proof {
        assert(r@ =~= k_text_key());
    }
    r
}

/// `target_lang`.
pub open spec fn k_target_lang_key() -> Seq<u8> {
    seq![
        't' as u8, 'a' as u8, 'r' as u8, 'g' as u8, 'e' as u8, 't' as u8, '_' as u8,
        'l' as u8, 'a' as u8, 'n' as u8, 'g' as u8,
    ]
}

fn target_lang_key_vec() -> (r: Vec<u8>)
    ensures
        r@ == k_target_lang_key(),
{
    let r: Vec<u8> = vec![
        't' as u8, 'a' as u8, 'r' as u8, 'g' as u8, 'e' as u8, 't' as u8, '_' as u8,
        'l' as u8, 'a' as u8, 'n' as u8, 'g' as u8,
    ];
    proof {
        assert(r@ =~= k_target_lang_key());
    }
    r
}

/// `source_lang`.
pub open spec fn k_source_lang_key() -> Seq<u8> {
    seq![
        's' as u8, 'o' as u8, 'u' as u8, 'r' as u8, 'c' as u8, 'e' as u8, '_' as u8,
        'l' as u8, 'a' as u8, 'n' as u8, 'g' as u8,
    ]
}

fn source_lang_key_vec() -> (r: Vec<u8>)
    ensures
        r@ == k_source_lang_key(),
{
    let r: Vec<u8> = vec![
        's' as u8, 'o' as u8, 'u' as u8, 'r' as u8, 'c' as u8, 'e' as u8, '_' as u8,
        'l' as u8, 'a' as u8, 'n' as u8, 'g' as u8,
    ];
    proof {
        assert(r@ =~= k_source_lang_key());
    }
    r
}

/// `code`.
pub open spec fn k_code_key() -> Seq<u8> {
    seq![
        'c' as u8, 'o' as u8, 'd' as u8, 'e' as u8,
    ]
}

fn code_key_vec() -> (r: Vec<u8>)
    ensures
        r@ == k_code_key(),
{
    let r: Vec<u8> = vec![
        'c' as u8, 'o' as u8, 'd' as u8, 'e' as u8,
    ];
    proof {
        assert(r@ =~= k_code_key());
    }
    r
}

/// `data`.
pub open spec fn k_data_key() -> Seq<u8> {
    seq![
        'd' as u8, 'a' as u8, 't' as u8, 'a' as u8,
    ]
}

fn data_key_vec() -> (r: Vec<u8>)
    ensures
        r@ == k_data_key(),
{
    let r: Vec<u8> = vec![
        'd' as u8, 'a' as u8, 't' as u8, 'a' as u8,
    ];
    proof {
        assert(r@ =~= k_data_key());
    }
    r
}

/// `auto`.
pub open spec fn k_auto_lang() -> Seq<u8> {
    seq![
        'a' as u8, 'u' as u8, 't' as u8, 'o' as u8,
    ]
}

fn auto_lang_vec() -> (r: Vec<u8>)
    ensures
        r@ == k_auto_lang(),
{
    let r: Vec<u8> = vec![
        'a' as u8, 'u' as u8, 't' as u8, 'o' as u8,
    ];
    proof {
        assert(r@ =~= k_auto_lang());
    }
    r
}

/// `manga`.
pub open spec fn k_manga_engine() -> Seq<u8> {
    seq![
        'm' as u8, 'a' as u8, 'n' as u8, 'g' as u8, 'a' as u8,
    ]
}

fn manga_engine_vec() -> (r: Vec<u8>)
    ensures
        r@ == k_manga_engine(),
{
    let r: Vec<u8> = vec![
        'm' as u8, 'a' as u8, 'n' as u8, 'g' as u8, 'a' as u8,
    ];
    proof {
        assert(r@ =~= k_manga_engine());
    }
    r
}

/// `lama_large_512px`.
pub open spec fn k_default_model() -> Seq<u8> {
    seq![
        'l' as u8, 'a' as u8, 'm' as u8, 'a' as u8, '_' as u8, 'l' as u8, 'a' as u8,
        'r' as u8, 'g' as u8, 'e' as u8, '_' as u8, '5' as u8, '1' as u8, '2' as u8,
        'p' as u8, 'x' as u8,
    ]
}

fn default_model_vec() -> (r: Vec<u8>)
    ensures
        r@ == k_default_model(),
{
    let r: Vec<u8> = vec![
        'l' as u8, 'a' as u8, 'm' as u8, 'a' as u8, '_' as u8, 'l' as u8, 'a' as u8,
        'r' as u8, 'g' as u8, 'e' as u8, '_' as u8, '5' as u8, '1' as u8, '2' as u8,
        'p' as u8, 'x' as u8,
    ];
    proof {
        assert(r@ =~= k_default_model());
    }
    r
}

/// `API Error: Status `.
pub open spec fn k_api_error_prefix() -> Seq<u8> {
    seq![
        'A' as u8, 'P' as u8, 'I' as u8, ' ' as u8, 'E' as u8, 'r' as u8, 'r' as u8,
        'o' as u8, 'r' as u8, ':' as u8, ' ' as u8, 'S' as u8, 't' as u8, 'a' as u8,
        't' as u8, 'u' as u8, 's' as u8, ' ' as u8,
    ]
}

fn api_error_prefix_vec() -> (r: Vec<u8>)
    ensures
        r@ == k_api_error_prefix(),
{
    let r: Vec<u8> = vec![
        'A' as u8, 'P' as u8, 'I' as u8, ' ' as u8, 'E' as u8, 'r' as u8, 'r' as u8,
        'o' as u8, 'r' as u8, ':' as u8, ' ' as u8, 'S' as u8, 't' as u8, 'a' as u8,
        't' as u8, 'u' as u8, 's' as u8, ' ' as u8,
    ];
    proof {
        assert(r@ =~= k_api_error_prefix());
    }
    r
}

/// `, Body: `.
pub open spec fn k_body_infix() -> Seq<u8> {
    seq![
        ',' as u8, ' ' as u8, 'B' as u8, 'o' as u8, 'd' as u8, 'y' as u8, ':' as u8,
        ' ' as u8,
    ]
}

fn body_infix_vec() -> (r: Vec<u8>)
    ensures
        r@ == k_body_infix(),
{
    let r: Vec<u8> = vec![
        ',' as u8, ' ' as u8, 'B' as u8, 'o' as u8, 'd' as u8, 'y' as u8, ':' as u8,
        ' ' as u8,
    ];
    proof {
        assert(r@ =~= k_body_infix());
    }
    r
}

/// `Failed to parse JSON response: `.
pub open spec fn k_parse_error_prefix() -> Seq<u8> {
    seq![
        'F' as u8, 'a' as u8, 'i' as u8, 'l' as u8, 'e' as u8, 'd' as u8, ' ' as u8,
        't' as u8, 'o' as u8, ' ' as u8, 'p' as u8, 'a' as u8, 'r' as u8, 's' as u8,
        'e' as u8, ' ' as u8, 'J' as u8, 'S' as u8, 'O' as u8, 'N' as u8, ' ' as u8,
        'r' as u8, 'e' as u8, 's' as u8, 'p' as u8, 'o' as u8, 'n' as u8, 's' as u8,
        'e' as u8, ':' as u8, ' ' as u8,
    ]
}

fn parse_error_prefix_vec() -> (r: Vec<u8>)
    ensures
        r@ == k_parse_error_prefix(),
{
    let r: Vec<u8> = vec![
        'F' as u8, 'a' as u8, 'i' as u8, 'l' as u8, 'e' as u8, 'd' as u8, ' ' as u8,
        't' as u8, 'o' as u8, ' ' as u8, 'p' as u8, 'a' as u8, 'r' as u8, 's' as u8,
        'e' as u8, ' ' as u8, 'J' as u8, 'S' as u8, 'O' as u8, 'N' as u8, ' ' as u8,
        'r' as u8, 'e' as u8, 's' as u8, 'p' as u8, 'o' as u8, 'n' as u8, 's' as u8,
        'e' as u8, ':' as u8, ' ' as u8,
    ];
    proof {
        assert(r@ =~= k_parse_error_prefix());
    }
    r
}

/// `Failed to parse JSON from response: `.
pub open spec fn k_from_parse_error_prefix() -> Seq<u8> {
    seq![
        'F' as u8, 'a' as u8, 'i' as u8, 'l' as u8, 'e' as u8, 'd' as u8, ' ' as u8,
        't' as u8, 'o' as u8, ' ' as u8, 'p' as u8, 'a' as u8, 'r' as u8, 's' as u8,
        'e' as u8, ' ' as u8, 'J' as u8, 'S' as u8, 'O' as u8, 'N' as u8, ' ' as u8,
        'f' as u8, 'r' as u8, 'o' as u8, 'm' as u8, ' ' as u8, 'r' as u8, 'e' as u8,
        's' as u8, 'p' as u8, 'o' as u8, 'n' as u8, 's' as u8, 'e' as u8, ':' as u8,
        ' ' as u8,
    ]
}

fn from_parse_error_prefix_vec() -> (r: Vec<u8>)
    ensures
        r@ == k_from_parse_error_prefix(),
{
    let r: Vec<u8> = vec![
        'F' as u8, 'a' as u8, 'i' as u8, 'l' as u8, 'e' as u8, 'd' as u8, ' ' as u8,
        't' as u8, 'o' as u8, ' ' as u8, 'p' as u8, 'a' as u8, 'r' as u8, 's' as u8,
        'e' as u8, ' ' as u8, 'J' as u8, 'S' as u8, 'O' as u8, 'N' as u8, ' ' as u8,
        'f' as u8, 'r' as u8, 'o' as u8, 'm' as u8, ' ' as u8, 'r' as u8, 'e' as u8,
        's' as u8, 'p' as u8, 'o' as u8, 'n' as u8, 's' as u8, 'e' as u8, ':' as u8,
        ' ' as u8,
    ];
    proof {
        assert(r@ =~= k_from_parse_error_prefix());
    }
    r
}

/// `DeepLX API Error: Status `.
pub open spec fn k_deeplx_error_prefix() -> Seq<u8> {
    seq![
        'D' as u8, 'e' as u8, 'e' as u8, 'p' as u8, 'L' as u8, 'X' as u8, ' ' as u8,
        'A' as u8, 'P' as u8, 'I' as u8, ' ' as u8, 'E' as u8, 'r' as u8, 'r' as u8,
        'o' as u8, 'r' as u8, ':' as u8, ' ' as u8, 'S' as u8, 't' as u8, 'a' as u8,
        't' as u8, 'u' as u8, 's' as u8, ' ' as u8,
    ]
}

fn deeplx_error_prefix_vec() -> (r: Vec<u8>)
    ensures
        r@ == k_deeplx_error_prefix(),
{
    let r: Vec<u8> = vec![
        'D' as u8, 'e' as u8, 'e' as u8, 'p' as u8, 'L' as u8, 'X' as u8, ' ' as u8,
        'A' as u8, 'P' as u8, 'I' as u8, ' ' as u8, 'E' as u8, 'r' as u8, 'r' as u8,
        'o' as u8, 'r' as u8, ':' as u8, ' ' as u8, 'S' as u8, 't' as u8, 'a' as u8,
        't' as u8, 'u' as u8, 's' as u8, ' ' as u8,
    ];
    proof {
        assert(r@ =~= k_deeplx_error_prefix());
    }
    r
}

/// `HTTP `.
pub open spec fn k_http_error_prefix() -> Seq<u8> {
    seq![
        'H' as u8, 'T' as u8, 'T' as u8, 'P' as u8, ' ' as u8,
    ]
}

fn http_error_prefix_vec() -> (r: Vec<u8>)
    ensures
        r@ == k_http_error_prefix(),
{
    let r: Vec<u8> = vec![
        'H' as u8, 'T' as u8, 'T' as u8, 'P' as u8, ' ' as u8,
    ];
    proof {
        assert(r@ =~= k_http_error_prefix());
    }
    r
}

/// `200`.
pub open spec fn k_code_200_text() -> Seq<u8> {
    seq![
        '2' as u8, '0' as u8, '0' as u8,
    ]
}

fn code_200_text_vec() -> (r: Vec<u8>)
    ensures
        r@ == k_code_200_text(),
{
    let r: Vec<u8> = vec![
        '2' as u8, '0' as u8, '0' as u8,
    ];
    proof {
        assert(r@ =~= k_code_200_text());
    }
    r
}

// ---------------------------------------------------------------------------
// JSON objects
// ---------------------------------------------------------------------------

/// `"key":value`.
pub open spec fn spec_field(k: Seq<u8>, v: Seq<u8>) -> Seq<u8> {
    spec_quoted(k) + seq![':' as u8] + v
}

fn field_bytes(k: &Vec<u8>, v: Vec<u8>) -> (r: Vec<u8>)
    ensures
        r@ == spec_field(k@, v@),
{
    let mut r = quoted_bytes(k);
    r.push(':' as u8);
    push_all(&mut r, &v);
    proof {
        assert(r@ =~= spec_field(k@, v@));
    }
    r
}

/// A JSON object over already-rendered fields, in the given order.
pub open spec fn spec_obj(fs: Seq<Seq<u8>>) -> Seq<u8>
    decreases fs.len(),
{
    if fs.len() == 0 {
        seq!['{' as u8, '}' as u8]
    } else if fs.len() == 1 {
        seq!['{' as u8] + fs[0] + seq!['}' as u8]
    } else {
        spec_obj(fs.drop_last()).drop_last() + seq![',' as u8] + fs.last() + seq!['}' as u8]
    }
}

proof fn lemma_obj_shape(fs: Seq<Seq<u8>>)
    ensures
        spec_obj(fs).len() > 0,
        spec_obj(fs).last() == '}' as u8,
{
}

/// Renders a JSON object from its fields, in the given order.
fn obj_bytes(fs: &Vec<Vec<u8>>) -> (r: Vec<u8>)
    ensures
        r@ == spec_obj(vecs_view(fs@)),
{
    let mut out: Vec<u8> = Vec::new();
    out.push('{' as u8);
    let n = fs.len();
    let mut i: usize = 0;
    while i < n
        invariant
            n == fs@.len(),
            i <= n,
            i == 0 ==> out@ == seq!['{' as u8],
            i > 0 ==> out@ + seq!['}' as u8] == spec_obj(vecs_view(fs@).subrange(0, i as int)),
        decreases n - i,
    {
        let ghost o0 = out@;
        if i > 0 {
            out.push(',' as u8);
        }
        push_all(&mut out, &fs[i]);
        proof {
            let vv = vecs_view(fs@);
            let prev = vv.subrange(0, i as int);
            assert(vv.subrange(0, i + 1).drop_last() =~= prev);
            assert(vv.subrange(0, i + 1).last() == vv[i as int]);
            assert(vv[i as int] == fs@[i as int]@);
            if i == 0 {
                assert(vv.subrange(0, 1) =~= seq![vv[0]]);
                assert(out@ + seq!['}' as u8] =~= spec_obj(vv.subrange(0, 1)));
            } else {
                lemma_obj_shape(prev);
                assert(o0 =~= spec_obj(prev).drop_last());
                assert(out@ + seq!['}' as u8] =~= spec_obj(vv.subrange(0, i + 1)));
            }
        }
        i += 1;
    }
    out.push('}' as u8);
    proof {
        if n == 0 {
            assert(out@ =~= spec_obj(vecs_view(fs@)));
        } else {
            assert(vecs_view(fs@).subrange(0, n as int) =~= vecs_view(fs@));
            assert(out@ =~= spec_obj(vecs_view(fs@)));
        }
    }
    out
}

// ---------------------------------------------------------------------------
// Endpoint URLs
// ---------------------------------------------------------------------------

/// `s` with every trailing `/` removed.
pub open spec fn strip_slashes(s: Seq<u8>) -> Seq<u8>
    decreases s.len(),
{
    if s.len() > 0 && s.last() == '/' as u8 {
        strip_slashes(s.drop_last())
    } else {
        s
    }
}

/// The URL of an operation: the base, shorn of trailing slashes, then the
/// operation's fixed suffix.
pub open spec fn spec_endpoint(base: Seq<u8>, suffix: Seq<u8>) -> Seq<u8> {
    strip_slashes(base) + suffix
}

/// Joins a base URL and an operation suffix.
pub fn endpoint_url(base: &Vec<u8>, suffix: &Vec<u8>) -> (r: Vec<u8>)
    ensures
        r@ == spec_endpoint(base@, suffix@),
{
    let mut cut: usize = base.len();
    proof {
        assert(base@.subrange(0, base@.len() as int) =~= base@);
    }
    while cut > 0 && base[cut - 1] == '/' as u8
        invariant
            cut <= base@.len(),
            strip_slashes(base@) == strip_slashes(base@.subrange(0, cut as int)),
        decreases cut,
    {
        proof {
            let pre = base@.subrange(0, cut as int);
            assert(pre.last() == '/' as u8);
            assert(pre.drop_last() =~= base@.subrange(0, cut - 1));
        }
        cut -= 1;
    }
    proof {
        let pre = base@.subrange(0, cut as int);
        if cut > 0 {
            assert(pre.last() != '/' as u8);
        }
        assert(strip_slashes(pre) == pre);
    }
    let mut r: Vec<u8> = Vec::new();
    let mut i: usize = 0;
    while i < cut
        invariant
            i <= cut <= base@.len(),
            r@ == base@.subrange(0, i as int),
        decreases cut - i,
    {
        r.push(base[i]);
        proof {
            assert(base@.subrange(0, i as int) + seq![base@[i as int]]
                =~= base@.subrange(0, i + 1));
        }
        i += 1;
    }
    push_all(&mut r, suffix);
    proof {
        assert(base@.subrange(0, base@.len() as int) =~= base@);
    }
    r
}

// ---------------------------------------------------------------------------
// Request payloads
// ---------------------------------------------------------------------------

/// `{"image_data":"..."}`: the payload of the text-area and panel
/// detectors.
pub open spec fn spec_detect_payload(img: Seq<u8>) -> Seq<u8> {
    spec_obj(seq![spec_field(k_image_data_key(), spec_quoted(img))])
}

/// Builds the detector payload.
pub fn detect_payload(image_data: &Vec<u8>) -> (r: Vec<u8>)
    ensures
        r@ == spec_detect_payload(image_data@),
{
    let mut fs: Vec<Vec<u8>> = Vec::new();
    fs.push(field_bytes(&image_data_key_vec(), quoted_bytes(image_data)));
    let r = obj_bytes(&fs);
    proof {
        assert(vecs_view(fs@) =~~= seq![spec_field(k_image_data_key(), spec_quoted(
            image_data@,
        ))]);
    }
    r
}

/// The engine asked for, or `manga`.
pub open spec fn engine_or_default(e: Option<Seq<u8>>) -> Seq<u8> {
    match e {
        Some(x) => x,
        None => k_manga_engine(),
    }
}

/// The auto-rotate choice, or on.
pub open spec fn auto_rotate_or_default(b: Option<bool>) -> bool {
    match b {
        Some(x) => x,
        None => true,
    }
}

/// The rendered `langs` value: an array, or null.
pub open spec fn langs_text(l: Option<Seq<Seq<u8>>>) -> Seq<u8> {
    match l {
        Some(x) => spec_str_array(x),
        None => spec_null_text(),
    }
}

/// The rendered `boxes` value: an array of arrays, or null.
pub open spec fn boxes_text(b: Option<Seq<Seq<int>>>) -> Seq<u8> {
    match b {
        Some(x) => spec_box_array(x),
        None => spec_null_text(),
    }
}

/// The dilation asked for, or 2.
pub open spec fn dilate_or_default(d: Option<int>) -> int {
    match d {
        Some(x) => x,
        None => 2,
    }
}

/// The model asked for, or `lama_large_512px`.
pub open spec fn model_or_default(m: Option<Seq<u8>>) -> Seq<u8> {
    match m {
        Some(x) => x,
        None => k_default_model(),
    }
}

/// The source language asked for, or `auto`.
pub open spec fn source_or_default(s: Option<Seq<u8>>) -> Seq<u8> {
    match s {
        Some(x) => x,
        None => k_auto_lang(),
    }
}

/// The sequence views of an optional list of strings.
pub open spec fn opt_strs_view(o: Option<Vec<Vec<u8>>>) -> Option<Seq<Seq<u8>>> {
    match o {
        Some(l) => Some(vecs_view(l@)),
        None => None,
    }
}

/// The batch-recognition payload: default engine `manga`, default
/// auto-rotate on, `langs` null when not given; keys in sorted order, as
/// the wire format writes objects.
pub open spec fn spec_recognize_payload(
    images: Seq<Seq<u8>>,
    engine: Option<Seq<u8>>,
    langs: Option<Seq<Seq<u8>>>,
    auto_rotate: Option<bool>,
) -> Seq<u8> {
    spec_obj(
        seq![
            spec_field(k_auto_rotate_key(), spec_bool_text(auto_rotate_or_default(auto_rotate))),
            spec_field(k_engine_key(), spec_quoted(engine_or_default(engine))),
            spec_field(k_images_data_key(), spec_str_array(images)),
            spec_field(k_langs_key(), langs_text(langs)),
        ],
    )
}

/// Builds the batch-recognition payload.
pub fn recognize_payload(
    images_data: &Vec<Vec<u8>>,
    engine: &Option<Vec<u8>>,
    langs: &Option<Vec<Vec<u8>>>,
    auto_rotate: Option<bool>,
) -> (r: Vec<u8>)
    ensures
        r@ == spec_recognize_payload(
            vecs_view(images_data@),
            crate::bytes::opt_view(*engine),
            opt_strs_view(*langs),
            auto_rotate,
        ),
{
    let ar = match auto_rotate {
        Some(b) => b,
        None => true,
    };
    let eng: Vec<u8> = match engine {
        Some(e) => clone_bytes(e),
        None => manga_engine_vec(),
    };
    let langs_text_v: Vec<u8> = match langs {
        Some(l) => str_array_bytes(l),
        None => null_bytes(),
    };
    let ghost langs_text_view = langs_text_v@;
    let mut fs: Vec<Vec<u8>> = Vec::new();
    fs.push(field_bytes(&auto_rotate_key_vec(), bool_bytes(ar)));
    fs.push(field_bytes(&engine_key_vec(), quoted_bytes(&eng)));
    fs.push(field_bytes(&images_data_key_vec(), str_array_bytes(images_data)));
    fs.push(field_bytes(&langs_key_vec(), langs_text_v));
    let r = obj_bytes(&fs);
    proof {
        assert(eng@ == engine_or_default(crate::bytes::opt_view(*engine)));
        assert(langs_text_v@ == langs_text(opt_strs_view(*langs)));
        assert(vecs_view(fs@) =~~= seq![
            spec_field(k_auto_rotate_key(), spec_bool_text(auto_rotate_or_default(auto_rotate))),
            spec_field(k_engine_key(), spec_quoted(engine_or_default(
                crate::bytes::opt_view(*engine),
            ))),
            spec_field(k_images_data_key(), spec_str_array(vecs_view(images_data@))),
            spec_field(k_langs_key(), langs_text(opt_strs_view(*langs))),
        ]);
    }
    r
}

/// `{"image_data":"...","mask_data":"..."}`: the plain inpainting payload.
pub open spec fn spec_inpaint_payload(img: Seq<u8>, mask: Seq<u8>) -> Seq<u8> {
    spec_obj(
        seq![
            spec_field(k_image_data_key(), spec_quoted(img)),
            spec_field(k_mask_data_key(), spec_quoted(mask)),
        ],
    )
}

/// Builds the plain inpainting payload.
pub fn inpaint_payload(image_data: &Vec<u8>, mask_data: &Vec<u8>) -> (r: Vec<u8>)
    ensures
        r@ == spec_inpaint_payload(image_data@, mask_data@),
{
    let mut fs: Vec<Vec<u8>> = Vec::new();
    fs.push(field_bytes(&image_data_key_vec(), quoted_bytes(image_data)));
    fs.push(field_bytes(&mask_data_key_vec(), quoted_bytes(mask_data)));
    let r = obj_bytes(&fs);
    proof {
        assert(vecs_view(fs@) =~~= seq![
            spec_field(k_image_data_key(), spec_quoted(image_data@)),
            spec_field(k_mask_data_key(), spec_quoted(mask_data@)),
        ]);
    }
    r
}

/// The integer views of an optional list of boxes.
pub open spec fn opt_boxes_view(o: Option<Vec<Vec<i32>>>) -> Option<Seq<Seq<int>>> {
    match o {
        Some(b) => Some(boxes_view(b@)),
        None => None,
    }
}

/// The automatic text-inpainting payload: `boxes` null when not given,
/// dilation defaulting to 2.
pub open spec fn spec_inpaint_auto_payload(
    img: Seq<u8>,
    boxes: Option<Seq<Seq<int>>>,
    dilate: Option<int>,
) -> Seq<u8> {
    spec_obj(
        seq![
            spec_field(k_boxes_key(), boxes_text(boxes)),
            spec_field(k_dilate_key(), spec_dec_i32(dilate_or_default(dilate))),
            spec_field(k_image_data_key(), spec_quoted(img)),
        ],
    )
}

/// The integer view of an optional number.
pub open spec fn opt_int_view(o: Option<i32>) -> Option<int> {
    match o {
        Some(d) => Some(d as int),
        None => None,
    }
}

/// Builds the automatic text-inpainting payload.
pub fn inpaint_auto_payload(
    image_data: &Vec<u8>,
    boxes: &Option<Vec<Vec<i32>>>,
    dilate: Option<i32>,
) -> (r: Vec<u8>)
    ensures
        r@ == spec_inpaint_auto_payload(image_data@, opt_boxes_view(*boxes), opt_int_view(dilate)),
{
    let boxes_text_v: Vec<u8> = match boxes {
        Some(b) => box_array_bytes(b),
        None => null_bytes(),
    };
    let ghost boxes_text_view = boxes_text_v@;
    let d: i32 = match dilate {
        Some(d) => d,
        None => 2,
    };
    let mut fs: Vec<Vec<u8>> = Vec::new();
    fs.push(field_bytes(&boxes_key_vec(), boxes_text_v));
    fs.push(field_bytes(&dilate_key_vec(), dec_i32(d)));
    fs.push(field_bytes(&image_data_key_vec(), quoted_bytes(image_data)));
    let r = obj_bytes(&fs);
    proof {
        assert(boxes_text_v@ == boxes_text(opt_boxes_view(*boxes)));
        assert(d as int == dilate_or_default(opt_int_view(dilate)));
        assert(vecs_view(fs@) =~~= seq![
            spec_field(k_boxes_key(), boxes_text(opt_boxes_view(*boxes))),
            spec_field(k_dilate_key(), spec_dec_i32(dilate_or_default(opt_int_view(dilate)))),
            spec_field(k_image_data_key(), spec_quoted(image_data@)),
        ]);
    }
    r
}

/// The model-based inpainting payload, model defaulting to
/// `lama_large_512px`.
pub open spec fn spec_inpaint_model_payload(
    img: Seq<u8>,
    mask: Seq<u8>,
    model: Option<Seq<u8>>,
) -> Seq<u8> {
    spec_obj(
        seq![
            spec_field(k_image_data_key(), spec_quoted(img)),
            spec_field(k_mask_data_key(), spec_quoted(mask)),
            spec_field(k_model_key(), spec_quoted(model_or_default(model))),
        ],
    )
}

/// Builds the model-based inpainting payload.
pub fn inpaint_model_payload(
    image_data: &Vec<u8>,
    mask_data: &Vec<u8>,
    model: &Option<Vec<u8>>,
) -> (r: Vec<u8>)
    ensures
        r@ == spec_inpaint_model_payload(
            image_data@,
            mask_data@,
            crate::bytes::opt_view(*model),
        ),
{
    let m: Vec<u8> = match model {
        Some(m) => clone_bytes(m),
        None => default_model_vec(),
    };
    let mut fs: Vec<Vec<u8>> = Vec::new();
    fs.push(field_bytes(&image_data_key_vec(), quoted_bytes(image_data)));
    fs.push(field_bytes(&mask_data_key_vec(), quoted_bytes(mask_data)));
    fs.push(field_bytes(&model_key_vec(), quoted_bytes(&m)));
    let r = obj_bytes(&fs);
    proof {
        assert(m@ == model_or_default(crate::bytes::opt_view(*model)));
        assert(vecs_view(fs@) =~~= seq![
            spec_field(k_image_data_key(), spec_quoted(image_data@)),
            spec_field(k_mask_data_key(), spec_quoted(mask_data@)),
            spec_field(k_model_key(), spec_quoted(model_or_default(
                crate::bytes::opt_view(*model),
            ))),
        ]);
    }
    r
}

/// The given texts joined by newlines.
pub open spec fn spec_join_nl(xs: Seq<Seq<u8>>) -> Seq<u8>
    decreases xs.len(),
{
    if xs.len() == 0 {
        Seq::empty()
    } else if xs.len() == 1 {
        xs[0]
    } else {
        spec_join_nl(xs.drop_last()) + seq![10u8] + xs.last()
    }
}

/// Joins texts with newlines.
pub fn join_nl(xs: &Vec<Vec<u8>>) -> (r: Vec<u8>)
    ensures
        r@ == spec_join_nl(vecs_view(xs@)),
{
    let mut out: Vec<u8> = Vec::new();
    let n = xs.len();
    let mut i: usize = 0;
    proof {
        assert(vecs_view(xs@).subrange(0, 0) =~= Seq::<Seq<u8>>::empty());
    }
    while i < n
        invariant
            n == xs@.len(),
            i <= n,
            out@ == spec_join_nl(vecs_view(xs@).subrange(0, i as int)),
        decreases n - i,
    {
        if i > 0 {
            out.push(10u8);
        }
        push_all(&mut out, &xs[i]);
        proof {
            let vv = vecs_view(xs@);
            assert(vv.subrange(0, i + 1).drop_last() =~= vv.subrange(0, i as int));
            assert(vv.subrange(0, i + 1).last() == vv[i as int]);
            assert(vv[i as int] == xs@[i as int]@);
            if i == 0 {
                assert(vv.subrange(0, 1) =~= seq![vv[0]]);
                assert(out@ =~= spec_join_nl(vv.subrange(0, 1)));
            } else {
                assert(out@ =~= spec_join_nl(vv.subrange(0, i + 1)));
            }
        }
        i += 1;
    }
    proof {
        assert(vecs_view(xs@).subrange(0, n as int) =~= vecs_view(xs@));
    }
    out
}

/// The translation payload: the texts joined by newlines, the source
/// language defaulting to `auto`.
pub open spec fn spec_deeplx_payload(
    texts: Seq<Seq<u8>>,
    target: Seq<u8>,
    source: Option<Seq<u8>>,
) -> Seq<u8> {
    spec_obj(
        seq![
            spec_field(k_source_lang_key(), spec_quoted(source_or_default(source))),
            spec_field(k_target_lang_key(), spec_quoted(target)),
            spec_field(k_text_key(), spec_quoted(spec_join_nl(texts))),
        ],
    )
}

/// Builds the translation payload.
pub fn deeplx_payload(
    texts: &Vec<Vec<u8>>,
    target_lang: &Vec<u8>,
    source_lang: &Option<Vec<u8>>,
) -> (r: Vec<u8>)
    ensures
        r@ == spec_deeplx_payload(
            vecs_view(texts@),
            target_lang@,
            crate::bytes::opt_view(*source_lang),
        ),
{
    let src: Vec<u8> = match source_lang {
        Some(s) => clone_bytes(s),
        None => auto_lang_vec(),
    };
    let joined = join_nl(texts);
    let mut fs: Vec<Vec<u8>> = Vec::new();
    fs.push(field_bytes(&source_lang_key_vec(), quoted_bytes(&src)));
    fs.push(field_bytes(&target_lang_key_vec(), quoted_bytes(target_lang)));
    fs.push(field_bytes(&text_key_vec(), quoted_bytes(&joined)));
    let r = obj_bytes(&fs);
    proof {
        assert(src@ == source_or_default(crate::bytes::opt_view(*source_lang)));
        assert(vecs_view(fs@) =~~= seq![
            spec_field(k_source_lang_key(), spec_quoted(source_or_default(
                crate::bytes::opt_view(*source_lang),
            ))),
            spec_field(k_target_lang_key(), spec_quoted(target_lang@)),
            spec_field(k_text_key(), spec_quoted(spec_join_nl(vecs_view(texts@)))),
        ]);
    }
    r
}

// ---------------------------------------------------------------------------
// Responses
// ---------------------------------------------------------------------------

/// `API Error: Status <status>, Body: <body>`.
pub open spec fn spec_api_error(status: nat, body: Seq<u8>) -> Seq<u8> {
    k_api_error_prefix() + spec_dec(status) + k_body_infix() + body
}

/// Classifies a proxied response: a success status with a JSON body passes
/// the body through; a failure status yields the error text carrying the
/// numeric status and the body verbatim; a success status with a body that
/// is not JSON yields a parse error.
pub fn handle_response(status: u16, body: &Vec<u8>) -> (r: Result<Vec<u8>, Vec<u8>>)
    ensures
        r is Ok <==> (200 <= status <= 299 && json_pretty_of(body@) is Some),
        r matches Ok(o) ==> o@ == body@,
        !(200 <= status <= 299) ==> (r matches Err(e) && e@ == spec_api_error(
            status as nat,
            body@,
        )),
        200 <= status <= 299 && json_pretty_of(body@) is None ==> (r matches Err(e)
            && k_parse_error_prefix().is_prefix_of(e@)),
{
    if status < 200 || status > 299 {
        let mut e = api_error_prefix_vec();
        let d = dec_u32(status as u32);
        push_all(&mut e, &d);
        let infix = body_infix_vec();
        push_all(&mut e, &infix);
        push_all(&mut e, body);
        proof {
            assert(e@ =~= spec_api_error(status as nat, body@));
        }
        return Err(e);
    }
    match json_pretty(body) {
        Ok(_) => Ok(clone_bytes(body)),
        Err(msg) => {
            let mut e = parse_error_prefix_vec();
            let mb = msg.as_str().as_bytes_vec();
            push_all(&mut e, &mb);
            proof {
                assert(k_parse_error_prefix().is_prefix_of(e@));
            }
            Err(e)
        }
    }
}

/// Classifies a blocking-translation response; as `handle_response`, with
/// the parse error worded for this command.
pub fn translate_response(status: u16, body: &Vec<u8>) -> (r: Result<Vec<u8>, Vec<u8>>)
    ensures
        r is Ok <==> (200 <= status <= 299 && json_pretty_of(body@) is Some),
        r matches Ok(o) ==> o@ == body@,
        !(200 <= status <= 299) ==> (r matches Err(e) && e@ == spec_api_error(
            status as nat,
            body@,
        )),
        200 <= status <= 299 && json_pretty_of(body@) is None ==> (r matches Err(e)
            && k_from_parse_error_prefix().is_prefix_of(e@)),
{
    if status < 200 || status > 299 {
        let mut e = api_error_prefix_vec();
        let d = dec_u32(status as u32);
        push_all(&mut e, &d);
        let infix = body_infix_vec();
        push_all(&mut e, &infix);
        push_all(&mut e, body);
        proof {
            assert(e@ =~= spec_api_error(status as nat, body@));
        }
        return Err(e);
    }
    match json_pretty(body) {
        Ok(_) => Ok(clone_bytes(body)),
        Err(msg) => {
            let mut e = from_parse_error_prefix_vec();
            let mb = msg.as_str().as_bytes_vec();
            push_all(&mut e, &mb);
            proof {
                assert(k_from_parse_error_prefix().is_prefix_of(e@));
            }
            Err(e)
        }
    }
}

/// What a fetched image becomes: its base64 form on success, `HTTP
/// <status>` on a failure status.
pub fn fetch_image_result(status: u16, bytes: &Vec<u8>) -> (r: Result<Vec<u8>, Vec<u8>>)
    ensures
        r is Ok <==> (200 <= status <= 299 && crate::b64::encodable(bytes@)),
        r matches Ok(o) ==> o@ == crate::b64::b64_of(bytes@),
        !(200 <= status <= 299) ==> (r matches Err(e) && e@ == k_http_error_prefix()
            + spec_dec(status as nat)),
{
    if status < 200 || status > 299 {
        let mut e = http_error_prefix_vec();
        let d = dec_u32(status as u32);
        push_all(&mut e, &d);
        return Err(e);
    }
    match crate::b64::encode_base64(bytes) {
        Some(b) => Ok(b),
        None => Err(http_error_prefix_vec()),
    }
}

/// `{"code":200,"data":"<t>"}`: the normalized translation envelope.
pub open spec fn spec_deeplx_wrap(t: Seq<u8>) -> Seq<u8> {
    spec_obj(
        seq![
            spec_field(k_code_key(), k_code_200_text()),
            spec_field(k_data_key(), spec_quoted(t)),
        ],
    )
}

fn deeplx_wrap(t: &Vec<u8>) -> (r: Vec<u8>)
    ensures
        r@ == spec_deeplx_wrap(t@),
{
    let mut fs: Vec<Vec<u8>> = Vec::new();
    fs.push(field_bytes(&code_key_vec(), code_200_text_vec()));
    fs.push(field_bytes(&data_key_vec(), quoted_bytes(t)));
    let r = obj_bytes(&fs);
    proof {
        assert(vecs_view(fs@) =~~= seq![
            spec_field(k_code_key(), k_code_200_text()),
            spec_field(k_data_key(), spec_quoted(t@)),
        ]);
    }
    r
}

/// What a successful translation response normalizes to: a body already in
/// the `code`/`data` envelope passes through; else the first of — the body
/// as a JSON string, its `data` field, its `text` field — is wrapped; else
/// the raw body is wrapped as plain text.
pub open spec fn spec_deeplx_normalized(body: Seq<u8>) -> Seq<u8> {
    if json_has_key_of(body, k_code_key()) && json_has_key_of(body, k_data_key()) {
        body
    } else {
        match json_as_str_of(body) {
            Some(t) => spec_deeplx_wrap(t),
            None => match json_get_str_of(body, k_data_key()) {
                Some(t) => spec_deeplx_wrap(t),
                None => match json_get_str_of(body, k_text_key()) {
                    Some(t) => spec_deeplx_wrap(t),
                    None => spec_deeplx_wrap(body),
                },
            },
        }
    }
}

/// Classifies and normalizes a translation response: every success status
/// yields a normalized envelope; a failure status yields the error text
/// carrying the numeric status and the body verbatim.
pub fn translate_deeplx_response(status: u16, body: &Vec<u8>) -> (r: Result<Vec<u8>, Vec<u8>>)
    ensures
        r is Ok <==> 200 <= status <= 299,
        r matches Ok(o) ==> o@ == spec_deeplx_normalized(body@),
        r matches Err(e) ==> e@ == k_deeplx_error_prefix() + spec_dec(status as nat)
            + k_body_infix() + body@,
{
    if status < 200 || status > 299 {
        let mut e = deeplx_error_prefix_vec();
        let d = dec_u32(status as u32);
        push_all(&mut e, &d);
        let infix = body_infix_vec();
        push_all(&mut e, &infix);
        push_all(&mut e, body);
        proof {
            assert(e@ =~= k_deeplx_error_prefix() + spec_dec(status as nat) + k_body_infix()
                + body@);
        }
        return Err(e);
    }
    let code_k = code_key_vec();
    let data_k = data_key_vec();
    if json_has_key(body, &code_k) && json_has_key(body, &data_k) {
        return Ok(clone_bytes(body));
    }
    match json_as_str(body) {
        Some(t) => Ok(deeplx_wrap(&t)),
        None => match json_get_str(body, &data_k) {
            Some(t) => Ok(deeplx_wrap(&t)),
            None => {
                let text_k = text_key_vec();
                match json_get_str(body, &text_k) {
                    Some(t) => Ok(deeplx_wrap(&t)),
                    None => Ok(deeplx_wrap(body)),
                }
            }
        },
    }
}

// ---------------------------------------------------------------------------
// The operations' fixed URL suffixes
// ---------------------------------------------------------------------------

/// `/detect_text_areas`.
pub open spec fn k_detect_text_areas_suffix() -> Seq<u8> {
    seq![
        '/' as u8, 'd' as u8, 'e' as u8, 't' as u8, 'e' as u8, 'c' as u8, 't' as u8,
        '_' as u8, 't' as u8, 'e' as u8, 'x' as u8, 't' as u8, '_' as u8, 'a' as u8,
        'r' as u8, 'e' as u8, 'a' as u8, 's' as u8,
    ]
}

/// `/detect_text_areas`, as bytes.
pub fn detect_text_areas_suffix() -> (r: Vec<u8>)
    ensures
        r@ == k_detect_text_areas_suffix(),
{
    let r: Vec<u8> = vec![
        '/' as u8, 'd' as u8, 'e' as u8, 't' as u8, 'e' as u8, 'c' as u8, 't' as u8,
        '_' as u8, 't' as u8, 'e' as u8, 'x' as u8, 't' as u8, '_' as u8, 'a' as u8,
        'r' as u8, 'e' as u8, 'a' as u8, 's' as u8,
    ];
    proof {
        assert(r@ =~= k_detect_text_areas_suffix());
    }
    r
}

/// `/detect_panels`.
pub open spec fn k_detect_panels_suffix() -> Seq<u8> {
    seq![
        '/' as u8, 'd' as u8, 'e' as u8, 't' as u8, 'e' as u8, 'c' as u8, 't' as u8,
        '_' as u8, 'p' as u8, 'a' as u8, 'n' as u8, 'e' as u8, 'l' as u8, 's' as u8,
    ]
}

/// `/detect_panels`, as bytes.
pub fn detect_panels_suffix() -> (r: Vec<u8>)
    ensures
        r@ == k_detect_panels_suffix(),
{
    let r: Vec<u8> = vec![
        '/' as u8, 'd' as u8, 'e' as u8, 't' as u8, 'e' as u8, 'c' as u8, 't' as u8,
        '_' as u8, 'p' as u8, 'a' as u8, 'n' as u8, 'e' as u8, 'l' as u8, 's' as u8,
    ];
    proof {
        assert(r@ =~= k_detect_panels_suffix());
    }
    r
}

/// `/recognize_images_batch`.
pub open spec fn k_recognize_images_batch_suffix() -> Seq<u8> {
    seq![
        '/' as u8, 'r' as u8, 'e' as u8, 'c' as u8, 'o' as u8, 'g' as u8, 'n' as u8,
        'i' as u8, 'z' as u8, 'e' as u8, '_' as u8, 'i' as u8, 'm' as u8, 'a' as u8,
        'g' as u8, 'e' as u8, 's' as u8, '_' as u8, 'b' as u8, 'a' as u8, 't' as u8,
        'c' as u8, 'h' as u8,
    ]
}

/// `/recognize_images_batch`, as bytes.
pub fn recognize_images_batch_suffix() -> (r: Vec<u8>)
    ensures
        r@ == k_recognize_images_batch_suffix(),
{
    let r: Vec<u8> = vec![
        '/' as u8, 'r' as u8, 'e' as u8, 'c' as u8, 'o' as u8, 'g' as u8, 'n' as u8,
        'i' as u8, 'z' as u8, 'e' as u8, '_' as u8, 'i' as u8, 'm' as u8, 'a' as u8,
        'g' as u8, 'e' as u8, 's' as u8, '_' as u8, 'b' as u8, 'a' as u8, 't' as u8,
        'c' as u8, 'h' as u8,
    ];
    proof {
        assert(r@ =~= k_recognize_images_batch_suffix());
    }
    r
}

/// `/inpaint`.
pub open spec fn k_inpaint_suffix() -> Seq<u8> {
    seq![
        '/' as u8, 'i' as u8, 'n' as u8, 'p' as u8, 'a' as u8, 'i' as u8, 'n' as u8,
        't' as u8,
    ]
}

/// `/inpaint`, as bytes.
pub fn inpaint_suffix() -> (r: Vec<u8>)
    ensures
        r@ == k_inpaint_suffix(),
{
    let r: Vec<u8> = vec![
        '/' as u8, 'i' as u8, 'n' as u8, 'p' as u8, 'a' as u8, 'i' as u8, 'n' as u8,
        't' as u8,
    ];
    proof {
        assert(r@ =~= k_inpaint_suffix());
    }
    r
}

/// `/inpaint_auto_text`.
pub open spec fn k_inpaint_auto_text_suffix() -> Seq<u8> {
    seq![
        '/' as u8, 'i' as u8, 'n' as u8, 'p' as u8, 'a' as u8, 'i' as u8, 'n' as u8,
        't' as u8, '_' as u8, 'a' as u8, 'u' as u8, 't' as u8, 'o' as u8, '_' as u8,
        't' as u8, 'e' as u8, 'x' as u8, 't' as u8,
    ]
}

/// `/inpaint_auto_text`, as bytes.
pub fn inpaint_auto_text_suffix() -> (r: Vec<u8>)
    ensures
        r@ == k_inpaint_auto_text_suffix(),
{
    let r: Vec<u8> = vec![
        '/' as u8, 'i' as u8, 'n' as u8, 'p' as u8, 'a' as u8, 'i' as u8, 'n' as u8,
        't' as u8, '_' as u8, 'a' as u8, 'u' as u8, 't' as u8, 'o' as u8, '_' as u8,
        't' as u8, 'e' as u8, 'x' as u8, 't' as u8,
    ];
    proof {
        assert(r@ =~= k_inpaint_auto_text_suffix());
    }
    r
}

/// `/inpaint_lama`.
pub open spec fn k_inpaint_lama_suffix() -> Seq<u8> {
    seq![
        '/' as u8, 'i' as u8, 'n' as u8, 'p' as u8, 'a' as u8, 'i' as u8, 'n' as u8,
        't' as u8, '_' as u8, 'l' as u8, 'a' as u8, 'm' as u8, 'a' as u8,
    ]
}

/// `/inpaint_lama`, as bytes.
pub fn inpaint_lama_suffix() -> (r: Vec<u8>)
    ensures
        r@ == k_inpaint_lama_suffix(),
{
    let r: Vec<u8> = vec![
        '/' as u8, 'i' as u8, 'n' as u8, 'p' as u8, 'a' as u8, 'i' as u8, 'n' as u8,
        't' as u8, '_' as u8, 'l' as u8, 'a' as u8, 'm' as u8, 'a' as u8,
    ];
    proof {
        assert(r@ =~= k_inpaint_lama_suffix());
    }
    r
}

/// `/inpaint_manual`.
pub open spec fn k_inpaint_manual_suffix() -> Seq<u8> {
    seq![
        '/' as u8, 'i' as u8, 'n' as u8, 'p' as u8, 'a' as u8, 'i' as u8, 'n' as u8,
        't' as u8, '_' as u8, 'm' as u8, 'a' as u8, 'n' as u8, 'u' as u8, 'a' as u8,
        'l' as u8,
    ]
}

/// `/inpaint_manual`, as bytes.
pub fn inpaint_manual_suffix() -> (r: Vec<u8>)
    ensures
        r@ == k_inpaint_manual_suffix(),
{
    let r: Vec<u8> = vec![
        '/' as u8, 'i' as u8, 'n' as u8, 'p' as u8, 'a' as u8, 'i' as u8, 'n' as u8,
        't' as u8, '_' as u8, 'm' as u8, 'a' as u8, 'n' as u8, 'u' as u8, 'a' as u8,
        'l' as u8,
    ];
    proof {
        assert(r@ =~= k_inpaint_manual_suffix());
    }
    r
}

} // verus!
