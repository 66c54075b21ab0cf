use video_dubber::mixing::{decimal_string, merge_filter_graph, mix_filter_graph, seconds_string};
use video_dubber::segment::Segment;

fn seg(start_ms: u64, end_ms: u64) -> Segment {
    Segment { start_ms, end_ms, text: String::new(), translated_text: String::new() }
}

#[test]
fn numbers_are_written_in_decimal() {
    assert_eq!(decimal_string(0), "0");
    assert_eq!(decimal_string(1234), "1234");
    assert_eq!(decimal_string(u64::MAX), "18446744073709551615");
}

#[test]
fn milliseconds_are_written_as_seconds() {
    assert_eq!(seconds_string(1985), "1.985");
    assert_eq!(seconds_string(5), "0.005");
    assert_eq!(seconds_string(120040), "120.040");
}

#[test]
fn one_segment_filter() {
    let segs = vec![seg(1500, 3500)];
    assert_eq!(
        mix_filter_graph(&vec![0], &segs),
        "[1]afade=t=in:st=0:d=0.010,afade=t=out:st=1.985:d=0.015,adelay=1500|1500[s0];\
         [0][s0]amix=inputs=2:duration=first:normalize=0,dynaudnorm=f=150:g=15:p=0.95:m=10"
    );
}

#[test]
fn two_segment_filter_uses_batch_positions() {
    let segs = vec![seg(0, 10), seg(100, 2100), seg(5000, 6000)];
    assert_eq!(
        mix_filter_graph(&vec![2, 0], &segs),
        "[1]afade=t=in:st=0:d=0.010,afade=t=out:st=0.985:d=0.015,adelay=5000|5000[s0];\
         [2]afade=t=in:st=0:d=0.010,afade=t=out:st=0.000:d=0.015,adelay=0|0[s1];\
         [0][s0][s1]amix=inputs=3:duration=first:normalize=0,dynaudnorm=f=150:g=15:p=0.95:m=10"
    );
}

#[test]
fn batch_merge_filter() {
    assert_eq!(merge_filter_graph(3), "[0][1][2]amix=inputs=3:duration=longest:normalize=0");
}
