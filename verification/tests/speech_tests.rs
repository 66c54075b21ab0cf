use video_dubber::speech::{audio_payload, SpeechError, SpeechStream};

fn event(b64: &str) -> String {
    format!("data: {{\"choices\":[{{\"delta\":{{\"audio\":{{\"data\":\"{}\"}}}}}}]}}\n\n", b64)
}

#[test]
fn audio_payload_is_standard_base64() {
    assert_eq!(audio_payload(&[0, 1, 2]), "AAEC");
    assert_eq!(audio_payload(b"Man"), "TWFu");
    assert_eq!(audio_payload(&[0xff]), "/w==");
    assert_eq!(audio_payload(&[0xff, 0xee]), "/+4=");
    assert_eq!(audio_payload(&[]), "");
}

#[test]
fn events_are_decoded_in_order() {
    let mut s = SpeechStream::new();
    let body = format!("{}{}data: [DONE]\n", event("AAEC"), event("AwQ="));
    s.feed(body.as_bytes());
    assert_eq!(s.audio(), &vec![0u8, 1, 2, 3, 4]);
    assert_eq!(s.errors(), 0);
}

#[test]
fn lines_split_across_chunks_are_joined() {
    let mut s = SpeechStream::new();
    let body = event("AAEC");
    let (a, b) = body.as_bytes().split_at(17);
    s.feed(a);
    assert!(s.audio().is_empty());
    s.feed(b);
    assert_eq!(s.audio(), &vec![0u8, 1, 2]);
}

#[test]
fn unreadable_events_are_counted_and_other_lines_skipped() {
    let mut s = SpeechStream::new();
    s.feed(b": keep-alive\n");
    s.feed(b"data: {not json\n");
    s.feed(event("@@@").as_bytes());
    s.feed(b"data: {\"choices\":[{\"delta\":{\"content\":\"hi\"}}]}\n");
    s.feed(event("").as_bytes());
    assert!(s.audio().is_empty());
    assert_eq!(s.errors(), 2);
}

#[test]
fn lines_after_done_wait_for_the_next_chunk() {
    let mut s = SpeechStream::new();
    let body = format!("data: [DONE]\n{}", event("AAEC"));
    s.feed(body.as_bytes());
    assert!(s.audio().is_empty());
    s.feed(b"");
    assert_eq!(s.audio(), &vec![0u8, 1, 2]);
}

#[test]
fn empty_stream_has_no_audio() {
    let s = SpeechStream::new();
    assert_eq!(s.finish("Olá").unwrap_err(), SpeechError::NoAudio);
}

#[test]
fn short_audio_is_truncated() {
    let mut s = SpeechStream::new();
    s.feed(event("AAEC").as_bytes());
    assert_eq!(s.finish("abc").unwrap_err(), SpeechError::Truncated { got: 3, expected: 4800 });
}

#[test]
fn long_text_needs_more_audio() {
    let mut s = SpeechStream::new();
    s.feed(event(&"AAAA".repeat(1600)).as_bytes());
    assert_eq!(
        s.finish("abcdefghijklmnopqrstuvwxyz").unwrap_err(),
        SpeechError::Truncated { got: 4800, expected: 20800 }
    );
}

#[test]
fn enough_audio_is_accepted() {
    let mut s = SpeechStream::new();
    s.feed(event(&"AAAA".repeat(1600)).as_bytes());
    assert_eq!(s.finish("oi").unwrap().len(), 4800);
}

#[test]
fn invalid_utf8_is_replaced_not_dropped() {
    let mut s = SpeechStream::new();
    s.feed(b"data: [DONE\xff]\n");
    assert_eq!(s.errors(), 1);
    s.feed(b"data: [DONE]\n");
    s.feed(event("AAEC").as_bytes());
    assert_eq!(s.audio(), &vec![0u8, 1, 2]);
}

#[test]
fn trimmed_lines_and_crlf_are_accepted() {
    let mut s = SpeechStream::new();
    let body = format!("   {}", event("AAEC").replace("\n\n", "\r\n"));
    s.feed(body.as_bytes());
    assert_eq!(s.audio(), &vec![0u8, 1, 2]);
}

#[test]
fn feeding_in_pieces_matches_feeding_at_once() {
    let body = format!("{}: ping\n{}data: {{oops\n{}", event("AAEC"), event("AwQ="), event("BQYH"));
    let mut whole = SpeechStream::new();
    whole.feed(body.as_bytes());
    for cut in [1usize, 5, 17, 40, body.len() - 1] {
        let mut pieces = SpeechStream::new();
        let (a, b) = body.as_bytes().split_at(cut);
        pieces.feed(a);
        pieces.feed(b);
        assert_eq!(pieces.audio(), whole.audio());
        assert_eq!(pieces.errors(), whole.errors());
    }
    assert_eq!(whole.audio(), &vec![0u8, 1, 2, 3, 4, 5, 6, 7]);
    assert_eq!(whole.errors(), 1);
}

#[test]
fn only_canonical_base64_audio_is_decoded() {
    let mut s = SpeechStream::new();
    s.feed(event("AB==").as_bytes());
    s.feed(event("AA=").as_bytes());
    s.feed(event("AA==").as_bytes());
    assert_eq!(s.audio(), &vec![0u8]);
    assert_eq!(s.errors(), 2);
}
