use video_dubber::segment::{Config, Segment};

fn seg(start_ms: u64, end_ms: u64, translated: &str) -> Segment {
    Segment { start_ms, end_ms, text: String::new(), translated_text: translated.to_string() }
}

#[test]
fn duration_is_end_minus_start() {
    assert_eq!(seg(1500, 4000, "").duration_ms(), 2500);
    assert_eq!(seg(7, 7, "").duration_ms(), 0);
}

#[test]
fn max_chars_rounds_down() {
    assert_eq!(seg(0, 2500, "").max_chars(13), 32);
    assert_eq!(seg(0, 999, "").max_chars(1), 0);
}

#[test]
fn speech_rate_counts_bytes() {
    assert!(seg(0, 1000, "aaaaaaaaaaaaaaa").exceeds_speech_rate(14));
    assert!(!seg(0, 1000, "aaaaaaaaaaaaaa").exceeds_speech_rate(14));
    assert!(seg(0, 1000, "ããããããããã").exceeds_speech_rate(14));
    assert!(!seg(10, 10, "aaaa").exceeds_speech_rate(14));
}

#[test]
fn config_defaults() {
    let c = Config::new("key".to_string(), "in.mp4".to_string(), "out.mp4".to_string(), "onyx".to_string());
    assert_eq!(c.base_url, "https://openrouter.ai/api/v1");
    assert_eq!(c.max_concurrent_tts, 5);
    assert_eq!(c.chunk_duration_secs, 300);
    assert_eq!(c.voice, "onyx");
    assert_eq!(c.api_key, "key");
}
