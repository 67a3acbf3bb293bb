//! The streaming-translation parser: the same events whatever the chunking.

use mtproj::sse::{SseParser, SseEvent};

fn run_chunks(chunks: &[&[u8]]) -> Vec<SseEvent> {
    let mut parser = SseParser::new();
    let mut events = Vec::new();
    for chunk in chunks {
        events.extend(parser.push_chunk(&chunk.to_vec()));
    }
    events
}

fn stream() -> Vec<u8> {
    let f1 = br#"data: {"choices":[{"delta":{"content":"Hel"}}]}"#;
    let f2 = br#"data: {"choices":[{"delta":{"content":"lo"}}]}"#;
    let mut s = Vec::new();
    s.extend_from_slice(f1);
    s.extend_from_slice(b"\n\n");
    s.extend_from_slice(f2);
    s.extend_from_slice(b"\ndata: [DONE]\n");
    s
}

fn expect_two_deltas_then_done(events: &[SseEvent]) {
    assert_eq!(events.len(), 3);
    match &events[0] {
        SseEvent::Delta(d) => assert_eq!(d, &b"\"Hel\"".to_vec()),
        SseEvent::Done => panic!("done came first"),
    }
    match &events[1] {
        SseEvent::Delta(d) => assert_eq!(d, &b"\"lo\"".to_vec()),
        SseEvent::Done => panic!("done came second"),
    }
    assert!(matches!(events[2], SseEvent::Done));
}

#[test]
fn whole_stream_at_once() {
    let s = stream();
    expect_two_deltas_then_done(&run_chunks(&[&s]));
}

#[test]
fn one_byte_at_a_time() {
    let s = stream();
    let chunks: Vec<&[u8]> = s.chunks(1).collect();
    expect_two_deltas_then_done(&run_chunks(&chunks));
}

#[test]
fn split_inside_a_frame() {
    let s = stream();
    // split in the middle of the first frame's JSON, and of the sentinel
    let cuts = [10usize, 25, s.len() - 4];
    let mut chunks: Vec<&[u8]> = Vec::new();
    let mut prev = 0usize;
    for &c in cuts.iter() {
        chunks.push(&s[prev..c]);
        prev = c;
    }
    chunks.push(&s[prev..]);
    expect_two_deltas_then_done(&run_chunks(&chunks));
}

#[test]
fn unterminated_tail_emits_nothing() {
    let events = run_chunks(&[b"data: [DONE]"]);
    assert_eq!(events.len(), 0);
    // and completes once the newline arrives
    let events = run_chunks(&[b"data: [DONE]", b"\n"]);
    assert_eq!(events.len(), 1);
    assert!(matches!(events[0], SseEvent::Done));
}

#[test]
fn non_data_lines_are_ignored() {
    let events = run_chunks(&[b"event: ping\n\n: comment\ndata: [DONE]\n"]);
    assert_eq!(events.len(), 1);
    assert!(matches!(events[0], SseEvent::Done));
}

#[test]
fn crlf_lines_are_trimmed() {
    let events = run_chunks(&[b"data: [DONE]\r\n"]);
    assert_eq!(events.len(), 1);
    assert!(matches!(events[0], SseEvent::Done));
}

#[test]
fn frames_without_content_emit_nothing() {
    let events = run_chunks(&[
        b"data: {\"choices\":[{\"delta\":{}}]}\ndata: {\"nochoices\":1}\ndata: not json\n",
    ]);
    assert_eq!(events.len(), 0);
}

#[test]
fn multiple_choices_emit_in_order() {
    let frame = br#"data: {"choices":[{"delta":{"content":"a"}},{"delta":{}},{"delta":{"content":"b"}}]}"#;
    let mut s = frame.to_vec();
    s.push(b'\n');
    let events = run_chunks(&[&s]);
    assert_eq!(events.len(), 2);
    match &events[0] {
        SseEvent::Delta(d) => assert_eq!(d, &b"\"a\"".to_vec()),
        _ => panic!("expected delta"),
    }
    match &events[1] {
        SseEvent::Delta(d) => assert_eq!(d, &b"\"b\"".to_vec()),
        _ => panic!("expected delta"),
    }
}
