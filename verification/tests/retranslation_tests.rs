use video_dubber::retranslation::{char_limits, Retranslation};
use video_dubber::segment::Segment;

fn seg(start_ms: u64, end_ms: u64, translated: &str) -> Segment {
    Segment { start_ms, end_ms, text: "src".to_string(), translated_text: translated.to_string() }
}

#[test]
fn fast_translation_is_planned_with_limit() {
    let p = Retranslation::plan(&seg(0, 1000, "abcdefghijklmnopqrst")).unwrap();
    assert_eq!(p.limit, 13);
    assert_eq!(p.next_request(), Some(13));
}

#[test]
fn slow_or_empty_segments_are_left_alone() {
    assert!(Retranslation::plan(&seg(0, 1000, "abcdefghijklmn")).is_none());
    assert!(Retranslation::plan(&seg(500, 500, "abc")).is_none());
    assert!(Retranslation::plan(&seg(0, 70, "abcdefghijklmnopqrst")).is_none());
}

#[test]
fn fitting_reply_ends_and_is_applied() {
    let mut s = seg(0, 1000, "abcdefghijklmnopqrst");
    let mut p = Retranslation::plan(&s).unwrap();
    p.on_reply(Some("curto".to_string()));
    assert!(p.done);
    assert_eq!(p.next_request(), None);
    assert!(p.apply(&mut s));
    assert_eq!(s.translated_text, "curto");
}

#[test]
fn long_replies_shrink_the_limit_and_stop_after_two() {
    let mut s = seg(0, 1000, "abcdefghijklmnopqrst");
    let mut p = Retranslation::plan(&s).unwrap();
    p.on_reply(Some("abcdefghijklmnopqrstuvwxyz".to_string()));
    assert_eq!(p.best, "abcdefghijklmnopqrst");
    assert_eq!(p.next_request(), Some(11));
    p.on_reply(Some("abcdefghijklmnop".to_string()));
    assert_eq!(p.best, "abcdefghijklmnop");
    assert_eq!(p.next_request(), None);
    assert!(p.apply(&mut s));
    assert_eq!(s.translated_text, "abcdefghijklmnop");
}

#[test]
fn failed_request_keeps_translation() {
    let mut s = seg(0, 1000, "abcdefghijklmnopqrst");
    let mut p = Retranslation::plan(&s).unwrap();
    p.on_reply(None);
    assert_eq!(p.next_request(), None);
    assert!(!p.apply(&mut s));
    assert_eq!(s.translated_text, "abcdefghijklmnopqrst");
}

#[test]
fn char_limits_read_each_segment_at_thirteen_per_second() {
    let segs = vec![seg(0, 2000, "a"), seg(1000, 1999, "b"), seg(5000, 5000, "c")];
    assert_eq!(char_limits(&segs), vec![26, 12, 0]);
}
