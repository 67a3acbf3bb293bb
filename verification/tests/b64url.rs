//! Base64 and inline data URLs.

use mtproj::b64::{encode_base64, decode_base64, data_url_payload, decode_data_url, make_data_url};
use mtproj::names::Mime;

use base64::Engine;

#[test]
fn encode_matches_the_engine() {
    let data = vec![0u8, 1, 2, 250, 255, 77];
    let mine = encode_base64(&data).unwrap();
    let theirs = base64::engine::general_purpose::STANDARD.encode(&data);
    assert_eq!(mine, theirs.into_bytes());
}

#[test]
fn decode_round_trips() {
    let data = b"arbitrary \x00 bytes \xff!".to_vec();
    let encoded = encode_base64(&data).unwrap();
    assert_eq!(decode_base64(&encoded).unwrap(), data);
}

#[test]
fn decode_rejects_garbage() {
    assert!(decode_base64(&b"not base64!!".to_vec()).is_none());
}

#[test]
fn payload_is_after_first_comma() {
    assert_eq!(
        data_url_payload(&b"data:image/png;base64,QUJD".to_vec()).unwrap(),
        b"QUJD".to_vec()
    );
    // only the first comma splits
    assert_eq!(data_url_payload(&b"a,b,c".to_vec()).unwrap(), b"b,c".to_vec());
    assert!(data_url_payload(&b"no comma".to_vec()).is_none());
}

#[test]
fn data_url_round_trips() {
    let data = vec![10u8, 20, 30, 40];
    let url = make_data_url(Mime::Png, &data).unwrap();
    let text = String::from_utf8(url.clone()).unwrap();
    assert!(text.starts_with("data:image/png;base64,"));
    assert_eq!(decode_data_url(&url).unwrap(), data);
}

#[test]
fn make_data_url_exact() {
    let url = make_data_url(Mime::Jpeg, &b"ABC".to_vec()).unwrap();
    assert_eq!(url, b"data:image/jpeg;base64,QUJD".to_vec());
}
