//! The audio-mixing filters that place every dubbed segment at its own
//! timestamp over a silent track.
use vstd::prelude::*;
use crate::segment::{Segment, SegmentView};
use crate::text::string_from_chars;

verus! {

/// The character of a decimal digit.
pub open spec fn digit_char(d: int) -> char {
    if d == 0 {
        '0'
    } else if d == 1 {
        '1'
    } else if d == 2 {
        '2'
    } else if d == 3 {
        '3'
    } else if d == 4 {
        '4'
    } else if d == 5 {
        '5'
    } else if d == 6 {
        '6'
    } else if d == 7 {
        '7'
    } else if d == 8 {
        '8'
    } else {
        '9'
    }
}

/// `n` written in decimal, without leading zeros.
pub open spec fn decimal(n: nat) -> Seq<char>
    decreases n,
{
    if n < 10 {
        seq![digit_char(n as int)]
    } else {
        decimal(n / 10) + seq![digit_char((n % 10) as int)]
    }
}

/// A number of milliseconds written as seconds with three decimals.
pub open spec fn seconds_millis(ms: nat) -> Seq<char> {
    let f = ms % 1000;
    decimal(ms / 1000) + seq![
        '.',
        digit_char((f / 100) as int),
        digit_char((f / 10 % 10) as int),
        digit_char((f % 10) as int),
    ]
}

fn digit(d: u64) -> (c: char)
    requires
        d < 10,
    ensures
        c == digit_char(d as int),
{
    if d == 0 {
        '0'
    } else if d == 1 {
        '1'
    } else if d == 2 {
        '2'
    } else if d == 3 {
        '3'
    } else if d == 4 {
        '4'
    } else if d == 5 {
        '5'
    } else if d == 6 {
        '6'
    } else if d == 7 {
        '7'
    } else if d == 8 {
        '8'
    } else {
        '9'
    }
}

fn push_decimal(out: &mut Vec<char>, n: u64)
    ensures
        final(out)@ == old(out)@ + decimal(n as nat),
    decreases n,
{
    if n < 10 {
        out.push(digit(n));
        proof {
            assert(final(out)@ =~= old(out)@ + decimal(n as nat));
        }
    } else {
        push_decimal(out, n / 10);
        out.push(digit(n % 10));
        proof {
            assert(final(out)@ =~= old(out)@ + decimal(n as nat));
        }
    }
}

/// `n` in decimal.
pub fn decimal_string(n: u64) -> (s: String)
    ensures
        s@ == decimal(n as nat),
{
    let mut v: Vec<char> = Vec::new();
    push_decimal(&mut v, n);
    proof {
        assert(v@ =~= decimal(n as nat));
    }
    string_from_chars(v.as_slice())
}

/// `ms` milliseconds as seconds with three decimals.
pub fn seconds_string(ms: u64) -> (s: String)
    ensures
        s@ == seconds_millis(ms as nat),
{
    let mut v: Vec<char> = Vec::new();
    push_decimal(&mut v, ms / 1000);
    let f = ms % 1000;
    v.push('.');
    v.push(digit(f / 100));
    v.push(digit(f / 10 % 10));
    v.push(digit(f % 10));
    proof {
        assert(v@ =~= seconds_millis(ms as nat));
    }
    string_from_chars(v.as_slice())
}

/// Length of a segment, zero when it ends before it starts.
pub open spec fn clamped_duration(seg: SegmentView) -> nat {
    if seg.end_ms >= seg.start_ms { (seg.end_ms - seg.start_ms) as nat } else { 0 }
}

/// Where the fade-out of a segment starts: 15 ms before its end, at least
/// at its start.
pub open spec fn fade_out_start(seg: SegmentView) -> nat {
    if clamped_duration(seg) >= 15 { (clamped_duration(seg) - 15) as nat } else { 0 }
}

/// The filter for the `i`-th audio of a batch (input `i + 1`, after the
/// silent track): a 10 ms fade-in, a 15 ms fade-out, and a delay to the
/// segment's start on both channels, labelled `s<i>`.
pub open spec fn segment_filter(i: nat, seg: SegmentView) -> Seq<char> {
    "["@ + decimal(i + 1) + "]afade=t=in:st=0:d=0.010,afade=t=out:st="@ + seconds_millis(
        fade_out_start(seg),
    ) + ":d=0.015,adelay="@ + decimal(seg.start_ms as nat) + "|"@ + decimal(seg.start_ms as nat)
        + "[s"@ + decimal(i) + "]"@
}

/// The labels of the silent track and of the first `k` delayed segments.
pub open spec fn mix_labels(k: nat) -> Seq<char>
    decreases k,
{
    if k == 0 {
        "[0]"@
    } else {
        mix_labels((k - 1) as nat) + "[s"@ + decimal((k - 1) as nat) + "]"@
    }
}

/// The filters of the first `k` segments of a batch, each followed by `;`.
pub open spec fn segment_filters(batch: Seq<usize>, segs: Seq<SegmentView>, k: nat) -> Seq<char>
    decreases k,
{
    if k == 0 {
        seq![]
    } else {
        segment_filters(batch, segs, (k - 1) as nat) + segment_filter(
            (k - 1) as nat,
            segs[batch[k - 1] as int],
        ) + ";"@
    }
}

/// The whole filter graph that mixes the segments `batch` (positions in
/// `segs`) over the silent track: every segment's filter, then the mix of
/// all inputs without normalization (length of the silent track), then a
/// gentle loudness normalization.
pub open spec fn mix_filter(batch: Seq<usize>, segs: Seq<SegmentView>) -> Seq<char> {
    segment_filters(batch, segs, batch.len()) + mix_labels(batch.len()) + "amix=inputs="@
        + decimal(batch.len() + 1) + ":duration=first:normalize=0,dynaudnorm=f=150:g=15:p=0.95:m=10"@
}

/// The filter graph that mixes the segments `batch` over the silent track.
pub fn mix_filter_graph(batch: &Vec<usize>, segments: &Vec<Segment>) -> (f: String)
    requires
        forall|i: int| 0 <= i < batch@.len() ==> #[trigger] batch@[i] < segments@.len(),
        batch@.len() < usize::MAX,
    ensures
        f@ == mix_filter(batch@, segments.deep_view()),
{
    let ghost segs = segments.deep_view();
    let mut f = String::new();
    let mut labels = String::from_str("[0]");
    let mut i: usize = 0;
    while i < batch.len()
        invariant
            i <= batch@.len() < usize::MAX,
            segs == segments.deep_view(),
            forall|j: int| 0 <= j < batch@.len() ==> #[trigger] batch@[j] < segments@.len(),
            f@ == segment_filters(batch@, segs, i as nat),
            labels@ == mix_labels(i as nat),
        decreases batch@.len() - i,
    {
        let seg = &segments[batch[i]];
        proof {
            assert(segs[batch@[i as int] as int] == seg@);
        }
        let dur = if seg.end_ms >= seg.start_ms {
            seg.end_ms - seg.start_ms
        } else {
            0
        };
        let fade = if dur >= 15 {
            dur - 15
        } else {
            0
        };
        let start = decimal_string(seg.start_ms);
        let index = decimal_string(i as u64);
        f.append("[");
        f.append(decimal_string(i as u64 + 1).as_str());
        f.append("]afade=t=in:st=0:d=0.010,afade=t=out:st=");
        f.append(seconds_string(fade).as_str());
        f.append(":d=0.015,adelay=");
        f.append(start.as_str());
        f.append("|");
        f.append(start.as_str());
        f.append("[s");
        f.append(index.as_str());
        f.append("]");
        f.append(";");
        labels.append("[s");
        labels.append(index.as_str());
        labels.append("]");
        proof {
            assert(f@ =~= segment_filters(batch@, segs, (i + 1) as nat));
            assert(labels@ =~= mix_labels((i + 1) as nat));
        }
        i = i + 1;
    }
    f.append(labels.as_str());
    f.append("amix=inputs=");
    f.append(decimal_string(batch.len() as u64 + 1).as_str());
    f.append(":duration=first:normalize=0,dynaudnorm=f=150:g=15:p=0.95:m=10");
    proof {
        assert(f@ =~= mix_filter(batch@, segs));
    }
    f
}

/// The labels `[0][1]...[n-1]` of `n` inputs.
pub open spec fn input_labels(n: nat) -> Seq<char>
    decreases n,
{
    if n == 0 {
        seq![]
    } else {
        input_labels((n - 1) as nat) + "["@ + decimal((n - 1) as nat) + "]"@
    }
}

/// The filter graph that mixes `n` batch tracks into one, as long as the
/// longest, without normalization.
pub open spec fn merge_filter(n: nat) -> Seq<char> {
    input_labels(n) + "amix=inputs="@ + decimal(n) + ":duration=longest:normalize=0"@
}

/// The filter graph that mixes `n` batch tracks into one.
pub fn merge_filter_graph(n: usize) -> (f: String)
    ensures
        f@ == merge_filter(n as nat),
{
    let mut f = String::new();
    let mut i: usize = 0;
    while i < n
        invariant
            i <= n,
            f@ == input_labels(i as nat),
        decreases n - i,
    {
        f.append("[");
        f.append(decimal_string(i as u64).as_str());
        f.append("]");
        proof {
            assert(f@ =~= input_labels((i + 1) as nat));
        }
        i = i + 1;
    }
    f.append("amix=inputs=");
    f.append(decimal_string(n as u64).as_str());
    f.append(":duration=longest:normalize=0");
    f
}

} // verus!
