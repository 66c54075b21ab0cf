use video_dubber::schedule::{
    batch_ranges, chunk_spans, chunk_starts, gaps_over, too_many_failures, total_speech_ms,
    transcription_retry_wait_secs, tts_retry_wait_ms, MIX_BATCH_SIZE, TRANSLATION_BATCH_SIZE,
};
use video_dubber::segment::Segment;

fn seg(start_ms: u64, end_ms: u64) -> Segment {
    Segment { start_ms, end_ms, text: String::new(), translated_text: String::new() }
}

#[test]
fn batches_cover_every_item_once() {
    assert_eq!(batch_ranges(65, TRANSLATION_BATCH_SIZE), vec![(0, 30), (30, 60), (60, 65)]);
    assert_eq!(batch_ranges(80, MIX_BATCH_SIZE), vec![(0, 40), (40, 80)]);
    assert!(batch_ranges(0, 30).is_empty());
}

#[test]
fn chunks_start_every_chunk_duration() {
    assert_eq!(chunk_starts(601, 300), vec![0, 300, 600]);
    assert_eq!(chunk_starts(600, 300), vec![0, 300]);
    assert!(chunk_starts(0, 300).is_empty());
    assert!(chunk_starts(0, 0).is_empty());
}

#[test]
fn transcription_waits_grow_then_stop() {
    assert_eq!(transcription_retry_wait_secs(0), Some(2));
    assert_eq!(transcription_retry_wait_secs(1), Some(4));
    assert_eq!(transcription_retry_wait_secs(2), None);
}

#[test]
fn speech_waits_back_off_with_spread() {
    assert_eq!(tts_retry_wait_ms(1, 3), 2257);
    assert_eq!(tts_retry_wait_ms(2, 7), 4000);
    assert_eq!(tts_retry_wait_ms(3, 6), 10057);
}

#[test]
fn failure_limit_is_ten_percent() {
    assert!(!too_many_failures(1, 10));
    assert!(too_many_failures(2, 10));
    assert!(!too_many_failures(0, 0));
}

#[test]
fn speech_time_and_gaps() {
    let segs = vec![seg(0, 1000), seg(2500, 3000), seg(3100, 4000), seg(3900, 5000)];
    assert_eq!(total_speech_ms(&segs), 1000 + 500 + 900 + 1100);
    assert_eq!(gaps_over(&segs, 1000), vec![0]);
    assert_eq!(gaps_over(&segs, 50), vec![0, 1]);
    assert!(gaps_over(&vec![], 0).is_empty());
}

#[test]
fn chunk_spans_are_cut_at_the_end_of_the_audio() {
    assert_eq!(
        chunk_spans(&vec![0, 300000, 600000], 300000, 700500),
        vec![(0, 300000), (300000, 600000), (600000, 700500)]
    );
    assert_eq!(chunk_spans(&vec![0], 300000, 42000), vec![(0, 42000)]);
    assert_eq!(chunk_spans(&vec![5000], 1000, 2000), vec![(5000, 5000)]);
}
