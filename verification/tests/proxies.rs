//! Request payloads, endpoint URLs, and response classification.

use mtproj::proxy::{
    detect_payload, recognize_payload, inpaint_payload, inpaint_auto_payload,
    inpaint_model_payload, deeplx_payload, endpoint_url, handle_response, translate_response,
    translate_deeplx_response, fetch_image_result, detect_text_areas_suffix,
    inpaint_lama_suffix,
};

use base64::Engine;

fn s(v: Vec<u8>) -> String {
    String::from_utf8(v).unwrap()
}

#[test]
fn detect_payload_exact() {
    assert_eq!(s(detect_payload(&b"abc123".to_vec())), r#"{"image_data":"abc123"}"#);
}

#[test]
fn payloads_escape_strings() {
    let tricky = b"a\"b\\c\nd\te\x01f".to_vec();
    let payload = detect_payload(&tricky);
    // the payload parses as JSON and gives the original string back
    let v: serde_json::Value = serde_json::from_slice(&payload).unwrap();
    assert_eq!(v.get("image_data").unwrap().as_str().unwrap().as_bytes(), &tricky[..]);
    assert_eq!(
        s(payload),
        "{\"image_data\":\"a\\\"b\\\\c\\nd\\te\\u0001f\"}"
    );
}

#[test]
fn recognize_payload_defaults() {
    let images = vec![b"i1".to_vec(), b"i2".to_vec()];
    let payload = recognize_payload(&images, &None, &None, None);
    assert_eq!(
        s(payload),
        r#"{"auto_rotate":true,"engine":"manga","images_data":["i1","i2"],"langs":null}"#
    );
}

#[test]
fn recognize_payload_explicit() {
    let images = vec![b"x".to_vec()];
    let langs = vec![b"ja".to_vec(), b"en".to_vec()];
    let payload = recognize_payload(&images, &Some(b"paddle".to_vec()), &Some(langs), Some(false));
    assert_eq!(
        s(payload),
        r#"{"auto_rotate":false,"engine":"paddle","images_data":["x"],"langs":["ja","en"]}"#
    );
}

#[test]
fn inpaint_payloads_exact() {
    assert_eq!(
        s(inpaint_payload(&b"img".to_vec(), &b"msk".to_vec())),
        r#"{"image_data":"img","mask_data":"msk"}"#
    );
    let boxes = vec![vec![1i32, 2, -3], vec![40i32]];
    assert_eq!(
        s(inpaint_auto_payload(&b"img".to_vec(), &Some(boxes), Some(7))),
        r#"{"boxes":[[1,2,-3],[40]],"dilate":7,"image_data":"img"}"#
    );
    assert_eq!(
        s(inpaint_auto_payload(&b"img".to_vec(), &None, None)),
        r#"{"boxes":null,"dilate":2,"image_data":"img"}"#
    );
    assert_eq!(
        s(inpaint_model_payload(&b"i".to_vec(), &b"m".to_vec(), &None)),
        r#"{"image_data":"i","mask_data":"m","model":"lama_large_512px"}"#
    );
    assert_eq!(
        s(inpaint_model_payload(&b"i".to_vec(), &b"m".to_vec(), &Some(b"small".to_vec()))),
        r#"{"image_data":"i","mask_data":"m","model":"small"}"#
    );
}

#[test]
fn deeplx_payload_joins_texts() {
    let texts = vec![b"one".to_vec(), b"two".to_vec()];
    assert_eq!(
        s(deeplx_payload(&texts, &b"EN".to_vec(), &None)),
        "{\"source_lang\":\"auto\",\"target_lang\":\"EN\",\"text\":\"one\\ntwo\"}"
    );
    assert_eq!(
        s(deeplx_payload(&vec![b"solo".to_vec()], &b"DE".to_vec(), &Some(b"JA".to_vec()))),
        "{\"source_lang\":\"JA\",\"target_lang\":\"DE\",\"text\":\"solo\"}"
    );
}

#[test]
fn endpoint_url_trims_trailing_slashes() {
    assert_eq!(
        s(endpoint_url(&b"http://host:9000/".to_vec(), &detect_text_areas_suffix())),
        "http://host:9000/detect_text_areas"
    );
    assert_eq!(
        s(endpoint_url(&b"http://host///".to_vec(), &inpaint_lama_suffix())),
        "http://host/inpaint_lama"
    );
    assert_eq!(s(endpoint_url(&b"http://host".to_vec(), &b"/x".to_vec())), "http://host/x");
}

#[test]
fn proxy_error_carries_status_and_body() {
    let err = handle_response(500, &b"boom".to_vec()).unwrap_err();
    let text = s(err);
    assert!(text.contains("500"));
    assert!(text.contains("boom"));
    assert_eq!(text, "API Error: Status 500, Body: boom");
}

#[test]
fn success_passes_json_through() {
    let body = br#"{"ok":true}"#.to_vec();
    assert_eq!(handle_response(200, &body).unwrap(), body);
    assert_eq!(handle_response(299, &body).unwrap(), body);
    let err = s(handle_response(200, &b"not json".to_vec()).unwrap_err());
    assert!(err.starts_with("Failed to parse JSON response: "));
    let err = s(translate_response(200, &b"not json".to_vec()).unwrap_err());
    assert!(err.starts_with("Failed to parse JSON from response: "));
}

#[test]
fn deeplx_normalization_chain() {
    // already the expected envelope: passed through verbatim
    let body = br#"{"code":200,"data":"hi"}"#.to_vec();
    assert_eq!(translate_deeplx_response(200, &body).unwrap(), body);
    // a bare JSON string is wrapped
    assert_eq!(
        s(translate_deeplx_response(200, &br#""hello""#.to_vec()).unwrap()),
        r#"{"code":200,"data":"hello"}"#
    );
    // a data field
    assert_eq!(
        s(translate_deeplx_response(200, &br#"{"data":"x","extra":1}"#.to_vec()).unwrap()),
        r#"{"code":200,"data":"x"}"#
    );
    // a text field
    assert_eq!(
        s(translate_deeplx_response(200, &br#"{"text":"y"}"#.to_vec()).unwrap()),
        r#"{"code":200,"data":"y"}"#
    );
    // anything else: the raw body, wrapped as plain text
    assert_eq!(
        s(translate_deeplx_response(200, &b"plain words".to_vec()).unwrap()),
        r#"{"code":200,"data":"plain words"}"#
    );
    assert_eq!(
        s(translate_deeplx_response(200, &br#"{"other":3}"#.to_vec()).unwrap()),
        "{\"code\":200,\"data\":\"{\\\"other\\\":3}\"}"
    );
    // a failure status carries status and body
    let err = s(translate_deeplx_response(503, &b"down".to_vec()).unwrap_err());
    assert_eq!(err, "DeepLX API Error: Status 503, Body: down");
}

#[test]
fn fetched_image_is_encoded() {
    let bytes = vec![5u8, 6, 7];
    let got = fetch_image_result(200, &bytes).unwrap();
    assert_eq!(got, base64::engine::general_purpose::STANDARD.encode(&bytes).into_bytes());
    let err = s(fetch_image_result(404, &bytes).unwrap_err());
    assert_eq!(err, "HTTP 404");
}
