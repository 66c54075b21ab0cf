use video_dubber::grouping::merge_short_segments;
use video_dubber::segment::Segment;

fn seg(start_ms: u64, end_ms: u64, text: &str, translated: &str) -> Segment {
    Segment {
        start_ms,
        end_ms,
        text: text.to_string(),
        translated_text: translated.to_string(),
    }
}

fn fields(s: &Segment) -> (u64, u64, String, String) {
    (s.start_ms, s.end_ms, s.text.clone(), s.translated_text.clone())
}

#[test]
fn empty_input_gives_empty_output() {
    assert!(merge_short_segments(&vec![]).unwrap().is_empty());
}

#[test]
fn short_segment_joins_the_next() {
    let input = vec![seg(0, 1000, "Yes.", "Sim."), seg(1200, 4000, "Let's go", "Vamos lá")];
    let out = merge_short_segments(&input).unwrap();
    assert_eq!(out.len(), 1);
    assert_eq!(
        fields(&out[0]),
        (0, 4000, "Yes. Let's go".to_string(), "Sim. Vamos lá".to_string())
    );
}

#[test]
fn long_segments_stay_alone() {
    let input = vec![seg(0, 2500, "a", "a"), seg(2600, 5000, "b", "b")];
    let out = merge_short_segments(&input).unwrap();
    assert_eq!(out.len(), 2);
    assert_eq!(fields(&out[0]), (0, 2500, "a".to_string(), "a".to_string()));
    assert_eq!(fields(&out[1]), (2600, 5000, "b".to_string(), "b".to_string()));
}

#[test]
fn too_fast_merge_is_refused_but_last_short_group_is_flushed_into_previous() {
    let input = vec![seg(0, 500, "a", "xxxxxxxxxx"), seg(600, 1000, "b", "yyyyyyyyyy")];
    let out = merge_short_segments(&input).unwrap();
    assert_eq!(out.len(), 1);
    assert_eq!(
        fields(&out[0]),
        (0, 1000, "a b".to_string(), "xxxxxxxxxx yyyyyyyyyy".to_string())
    );
}

#[test]
fn large_gap_keeps_short_segment_alone() {
    let input = vec![seg(0, 1500, "a", "a"), seg(5000, 8000, "b", "b")];
    let out = merge_short_segments(&input).unwrap();
    assert_eq!(out.len(), 2);
    assert_eq!(fields(&out[0]), (0, 1500, "a".to_string(), "a".to_string()));
    assert_eq!(fields(&out[1]), (5000, 8000, "b".to_string(), "b".to_string()));
}

#[test]
fn very_short_group_accepts_two_second_gap() {
    let input = vec![seg(0, 800, "hi", "oi"), seg(2500, 5000, "there", "aí")];
    let out = merge_short_segments(&input).unwrap();
    assert_eq!(out.len(), 1);
    assert_eq!(fields(&out[0]), (0, 5000, "hi there".to_string(), "oi aí".to_string()));
}

#[test]
fn short_tail_far_from_previous_is_kept_alone() {
    let input = vec![seg(0, 3000, "a", "a"), seg(4000, 4500, "b", "b")];
    let out = merge_short_segments(&input).unwrap();
    assert_eq!(out.len(), 2);
    assert_eq!(fields(&out[1]), (4000, 4500, "b".to_string(), "b".to_string()));
}

#[test]
fn grouping_keeps_every_word_in_order() {
    let input = vec![
        seg(0, 700, "one", "um"),
        seg(800, 1500, "two", "dois"),
        seg(1600, 4000, "three", "três"),
        seg(9000, 9500, "four", "quatro"),
        seg(9600, 13000, "five", "cinco"),
    ];
    let out = merge_short_segments(&input).unwrap();
    let joined: Vec<String> = out.iter().map(|s| s.text.clone()).collect();
    let translated: Vec<String> = out.iter().map(|s| s.translated_text.clone()).collect();
    assert_eq!(joined.join(" "), "one two three four five");
    assert_eq!(translated.join(" "), "um dois três quatro cinco");
    assert!(out.len() <= input.len());
}

#[test]
fn segment_ending_before_it_starts_has_no_grouping() {
    assert!(merge_short_segments(&vec![seg(5000, 4000, "a", "a")]).is_none());
    assert!(merge_short_segments(&vec![seg(3000, 3500, "a", "a"), seg(1000, 2000, "b", "b")]).is_none());
}

#[test]
fn backwards_segment_absorbed_by_pending_group_is_kept() {
    let input = vec![seg(0, 500, "a", "a"), seg(600, 550, "b", "b")];
    let out = merge_short_segments(&input).unwrap();
    assert_eq!(out.len(), 1);
    assert_eq!(fields(&out[0]), (0, 550, "a b".to_string(), "a b".to_string()));
}

#[test]
fn grouping_a_timeline_without_overlaps_keeps_it_without_overlaps() {
    let input = vec![
        seg(0, 700, "one", "um"),
        seg(700, 1500, "two", "dois"),
        seg(1600, 4000, "three", "três"),
        seg(4000, 4300, "four", "quatro"),
    ];
    let out = merge_short_segments(&input).unwrap();
    for w in out.windows(2) {
        assert!(w[0].end_ms <= w[1].start_ms);
    }
    assert_eq!(out.last().unwrap().end_ms, 4300);
}
