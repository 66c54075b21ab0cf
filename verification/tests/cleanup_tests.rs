use video_dubber::cleanup::{deduplicate_segments, validate_segment_timestamps};
use video_dubber::segment::Segment;

fn seg(start_ms: u64, end_ms: u64, text: &str) -> Segment {
    Segment { start_ms, end_ms, text: text.to_string(), translated_text: String::new() }
}

fn one_chunk() -> Vec<(u64, u64)> {
    vec![(0, 300000)]
}

fn times(v: &[Segment]) -> Vec<(u64, u64)> {
    v.iter().map(|s| (s.start_ms, s.end_ms)).collect()
}

#[test]
fn dedup_keeps_disjoint_segments() {
    let out = deduplicate_segments(vec![seg(0, 1000, "a"), seg(1000, 2000, "b")], &one_chunk()).unwrap();
    assert_eq!(times(&out), vec![(0, 1000), (1000, 2000)]);
}

#[test]
fn dedup_of_empty_is_empty() {
    assert!(deduplicate_segments(vec![], &one_chunk()).unwrap().is_empty());
}

#[test]
fn dedup_moves_start_past_small_overlap() {
    let out = deduplicate_segments(vec![seg(0, 1000, "a"), seg(950, 2000, "b")], &one_chunk()).unwrap();
    assert_eq!(times(&out), vec![(0, 1000), (1000, 2000)]);
}

#[test]
fn dedup_drops_segment_swallowed_by_small_overlap() {
    let out = deduplicate_segments(vec![seg(0, 1000, "a"), seg(950, 1000, "b")], &one_chunk()).unwrap();
    assert_eq!(times(&out), vec![(0, 1000)]);
}

#[test]
fn dedup_keeps_the_more_central_of_similar_segments() {
    let chunks = vec![(0, 5000), (5000, 10000)];
    let out = deduplicate_segments(
        vec![seg(3000, 5600, "hello world again"), seg(5000, 7500, "hello world again now")],
        &chunks,
    )
    .unwrap();
    assert_eq!(times(&out), vec![(5000, 7500)]);
    assert_eq!(out[0].text, "hello world again now");
}

#[test]
fn dedup_keeps_earlier_when_it_is_more_central() {
    let chunks = vec![(0, 5000), (5000, 10000)];
    let out = deduplicate_segments(
        vec![seg(1000, 4000, "hello world again"), seg(3500, 9000, "hello world again now")],
        &chunks,
    )
    .unwrap();
    assert_eq!(times(&out), vec![(1000, 4000)]);
    assert_eq!(out[0].text, "hello world again");
}

#[test]
fn dedup_keeps_earlier_on_equal_centrality() {
    let chunks = vec![(0, 5000)];
    let out = deduplicate_segments(
        vec![seg(0, 5000, "hello world"), seg(100, 4900, "hello world")],
        &chunks,
    )
    .unwrap();
    assert_eq!(times(&out), vec![(0, 5000)]);
}

#[test]
fn dedup_cuts_different_segments_at_midpoint() {
    let out = deduplicate_segments(vec![seg(0, 5000, "alpha beta"), seg(3000, 8000, "gamma delta")], &one_chunk()).unwrap();
    assert_eq!(times(&out), vec![(0, 4000), (4000, 8000)]);
}

#[test]
fn dedup_result_has_no_overlaps() {
    let out = deduplicate_segments(
        vec![
            seg(0, 4000, "a b c"),
            seg(1000, 6000, "d e f"),
            seg(5900, 7000, "g"),
            seg(6500, 9000, "g h"),
        ],
        &one_chunk(),
    )
    .unwrap();
    for w in out.windows(2) {
        assert!(w[0].end_ms <= w[1].start_ms);
    }
}

#[test]
fn validate_splits_long_segment_by_words() {
    let mut s = seg(0, 20000, "one two three four five");
    s.translated_text = "tr".to_string();
    let out = validate_segment_timestamps(vec![s]).unwrap();
    assert_eq!(times(&out), vec![(0, 10000), (10000, 20000)]);
    assert_eq!(out[0].text, "one two");
    assert_eq!(out[0].translated_text, "tr");
    assert_eq!(out[1].text, "three four five");
    assert_eq!(out[1].translated_text, "");
}

#[test]
fn validate_keeps_the_whole_span_of_a_single_word_segment() {
    let out = validate_segment_timestamps(vec![seg(0, 20000, "hello")]).unwrap();
    assert_eq!(times(&out), vec![(0, 10000), (10000, 20000)]);
    assert_eq!(out[0].text, "hello");
    assert_eq!(out[1].text, "");
}

#[test]
fn validate_splits_on_unicode_whitespace() {
    let out = validate_segment_timestamps(vec![seg(1000, 17000, "um\u{a0}dois")]).unwrap();
    assert_eq!(times(&out), vec![(1000, 9000), (9000, 17000)]);
    assert_eq!(out[0].text, "um");
    assert_eq!(out[1].text, "dois");
}

#[test]
fn validate_leaves_fifteen_seconds_alone() {
    let out = validate_segment_timestamps(vec![seg(0, 15000, "a b")]).unwrap();
    assert_eq!(times(&out), vec![(0, 15000)]);
}

#[test]
fn validate_meets_overlapping_neighbours_at_midpoint() {
    let out = validate_segment_timestamps(vec![seg(0, 3000, "a"), seg(2000, 5000, "b")]).unwrap();
    assert_eq!(times(&out), vec![(0, 2500), (2500, 5000)]);
}

#[test]
fn validate_result_is_monotone() {
    let out = validate_segment_timestamps(vec![
        seg(0, 3000, "a"),
        seg(1000, 2000, "b"),
        seg(1500, 40000, "c d e f"),
    ]).unwrap();
    for w in out.windows(2) {
        assert!(w[0].end_ms <= w[1].start_ms);
    }
}

#[test]
fn dedup_refuses_midpoint_overflow() {
    let out = deduplicate_segments(
        vec![seg(0, u64::MAX, "alpha"), seg(1000, u64::MAX, "beta")],
        &one_chunk(),
    );
    assert!(out.is_none());
}

#[test]
fn validate_refuses_segment_ending_before_start() {
    assert!(validate_segment_timestamps(vec![seg(10, 5, "a")]).is_none());
    assert!(validate_segment_timestamps(vec![seg(u64::MAX - 20000, u64::MAX, "a b")]).is_none());
}

#[test]
fn validate_keeps_every_word_in_order() {
    let mut long = seg(0, 20000, "  one two\tthree  four five ");
    long.translated_text = "um dois três".to_string();
    let input = vec![seg(0, 0, "zero"), long, seg(19000, 22000, "six seven")];
    let out = validate_segment_timestamps(input).unwrap();
    let words: Vec<String> = out
        .iter()
        .flat_map(|s| s.text.split_whitespace().map(|w| w.to_string()).collect::<Vec<_>>())
        .collect();
    assert_eq!(words, vec!["zero", "one", "two", "three", "four", "five", "six", "seven"]);
    let translated: Vec<String> = out
        .iter()
        .flat_map(|s| s.translated_text.split_whitespace().map(|w| w.to_string()).collect::<Vec<_>>())
        .collect();
    assert_eq!(translated, vec!["um", "dois", "três"]);
}

#[test]
fn dedup_twice_is_dedup_once() {
    let input = vec![
        seg(0, 2000, "a"),
        seg(1000, 1600, "b c"),
        seg(1100, 1300, "b c"),
        seg(1250, 4000, "d"),
        seg(3950, 6000, "e"),
    ];
    let once = deduplicate_segments(input, &one_chunk()).unwrap();
    let twice = deduplicate_segments(once.clone(), &one_chunk()).unwrap();
    assert_eq!(times(&once), times(&twice));
    let texts = |v: &[Segment]| v.iter().map(|s| s.text.clone()).collect::<Vec<_>>();
    assert_eq!(texts(&once), texts(&twice));
}

#[test]
fn dedup_resolves_chunk_boundary_overlaps() {
    let input = vec![
        seg(0, 3000, "one two"),
        seg(2500, 6000, "one two three"),
        seg(5950, 9000, "four"),
        seg(8000, 12000, "five"),
    ];
    let out = deduplicate_segments(input, &vec![(0, 6000), (6000, 12000)]).unwrap();
    assert_eq!(times(&out), vec![(2500, 6000), (6000, 8500), (8500, 12000)]);
}

#[test]
fn dedup_is_defined_on_bounded_segments() {
    let input = vec![
        seg(0, 2000, "a"),
        seg(1000, 1600, "b c"),
        seg(1100, 1300, "b c"),
        seg(1150, 5000, "b c"),
    ];
    let out = deduplicate_segments(input, &vec![(0, 1000), (1000, 6000)]).unwrap();
    for w in out.windows(2) {
        assert!(w[0].end_ms <= w[1].start_ms);
    }
}

#[test]
fn validate_is_defined_on_bounded_well_formed_segments() {
    let half = u64::MAX / 2;
    let input = vec![seg(half - 40000, half, "a b c d"), seg(half - 50000, half - 45000, "e")];
    let out = validate_segment_timestamps(input).unwrap();
    assert_eq!(out.len(), 3);
}

#[test]
fn validate_keeps_every_covered_instant_of_a_timeline() {
    let input = vec![seg(0, 16000, "x"), seg(16000, 40000, "a b c"), seg(41000, 42000, "d")];
    let out = validate_segment_timestamps(input).unwrap();
    assert_eq!(
        times(&out),
        vec![(0, 8000), (8000, 16000), (16000, 28000), (28000, 40000), (41000, 42000)]
    );
}
