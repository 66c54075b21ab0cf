use video_dubber::reply::{
    chat_content, merge_translation, retranslation_reply, segments_from_items,
    transcription_segments, translation_segments, RawItem, ReplyError,
};
use video_dubber::segment::Segment;

fn times(v: &[Segment]) -> Vec<(u64, u64, String)> {
    v.iter().map(|s| (s.start_ms, s.end_ms, s.text.clone())).collect()
}

#[test]
fn content_is_read_from_first_choice() {
    let body = r#"{"choices":[{"message":{"content":"olá"}}]}"#;
    assert_eq!(chat_content(body).unwrap(), "olá");
}

#[test]
fn body_that_is_not_json_is_malformed() {
    assert_eq!(chat_content("<html>").unwrap_err(), ReplyError::MalformedResponse);
}

#[test]
fn missing_or_non_string_content_is_reported() {
    assert_eq!(chat_content(r#"{"choices":[]}"#).unwrap_err(), ReplyError::MissingContent);
    assert_eq!(
        chat_content(r#"{"choices":[{"message":{"content":7}}]}"#).unwrap_err(),
        ReplyError::MissingContent
    );
}

#[test]
fn retranslation_reply_is_trimmed() {
    let body = r#"{"choices":[{"message":{"content":"  Olá mundo \n"}}]}"#;
    assert_eq!(retranslation_reply(body).unwrap(), "Olá mundo");
}

#[test]
fn transcription_items_are_offset_and_filtered() {
    let content = r#"{"segments":[
        {"start_ms":0,"end_ms":3500,"text":"first"},
        {"start_ms":3600,"end_ms":3600,"text":"zero length"},
        {"start_ms":4000,"end_ms":5000,"text":""},
        {"end_ms":700,"text":"no start"},
        {"start_ms":1.5,"end_ms":900,"text":"float start"}
    ]}"#;
    let out = transcription_segments(content, 1000).unwrap();
    assert_eq!(
        times(&out),
        vec![
            (1000, 4500, "first".to_string()),
            (1000, 1700, "no start".to_string()),
            (1000, 1900, "float start".to_string()),
        ]
    );
    assert!(out.iter().all(|s| s.translated_text.is_empty()));
}

#[test]
fn transcription_errors() {
    assert_eq!(transcription_segments("not json", 0).unwrap_err(), ReplyError::MalformedContent);
    assert_eq!(transcription_segments(r#"{"items":[]}"#, 0).unwrap_err(), ReplyError::MissingSegments);
    assert_eq!(
        transcription_segments(r#"{"segments":[{"start_ms":0,"end_ms":2,"text":"x"}]}"#, u64::MAX)
            .unwrap_err(),
        ReplyError::TimestampOverflow
    );
}

#[test]
fn empty_segment_list_gives_no_segment() {
    assert!(transcription_segments(r#"{"segments":[]}"#, 0).unwrap().is_empty());
}

#[test]
fn items_become_segments() {
    let items = vec![RawItem {
        start_ms: Some(10),
        end_ms: Some(20),
        text: Some("t".to_string()),
        translated: None,
    }];
    let out = segments_from_items(&items, 5);
    assert_eq!(times(&out), vec![(15, 25, "t".to_string())]);
}

#[test]
fn translation_fills_missing_fields_from_sources() {
    let sources = vec![
        Segment { start_ms: 0, end_ms: 1500, text: "Hello".to_string(), translated_text: String::new() },
        Segment { start_ms: 2000, end_ms: 3000, text: "Bye".to_string(), translated_text: String::new() },
    ];
    let content = r#"{"segments":[
        {"translated":"Olá"},
        {"start_ms":2100,"end_ms":3100,"text":"Bye!","translated":"Tchau"},
        {"text":"extra"}
    ]}"#;
    let out = translation_segments(content, &sources).unwrap();
    assert_eq!(
        times(&out),
        vec![
            (0, 1500, "Hello".to_string()),
            (2100, 3100, "Bye!".to_string()),
            (0, 0, "extra".to_string()),
        ]
    );
    assert_eq!(out[0].translated_text, "Olá");
    assert_eq!(out[1].translated_text, "Tchau");
    assert_eq!(out[2].translated_text, "");
}

#[test]
fn translation_errors() {
    assert_eq!(translation_segments("{", &vec![]).unwrap_err(), ReplyError::MalformedContent);
    assert_eq!(
        translation_segments(r#"{"segments":{}}"#, &vec![]).unwrap_err(),
        ReplyError::MissingSegments
    );
}

#[test]
fn merge_translation_without_sources() {
    let items = vec![RawItem { start_ms: None, end_ms: Some(9), text: None, translated: Some("x".to_string()) }];
    let out = merge_translation(&items, &vec![]);
    assert_eq!(times(&out), vec![(0, 9, String::new())]);
    assert_eq!(out[0].translated_text, "x");
}

#[test]
fn nested_and_duplicate_keys_follow_serde_json() {
    let body = r#"{"choices":[{"message":{"content":"first","content":"second"}},{"message":{"content":"other"}}]}"#;
    assert_eq!(chat_content(body).unwrap(), "second");
    let body = r#"{"choices":{"0":{"message":{"content":"x"}}}}"#;
    assert_eq!(chat_content(body).unwrap_err(), ReplyError::MissingContent);
}
