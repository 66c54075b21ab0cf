//! Scheduling decisions of the dubbing pipeline: how work is cut into
//! batches and chunks, when a failed request is retried, when too many
//! failures stop the run, and the figures it reports.
use vstd::prelude::*;
use crate::segment::{Segment, SegmentView};

verus! {

/// Segments sent to translation in one request.
pub const TRANSLATION_BATCH_SIZE: usize = 30;

/// Segments mixed by one audio-mixing command.
pub const MIX_BATCH_SIZE: usize = 40;

/// Requests made for the transcription of one chunk at most.
pub const TRANSCRIPTION_ATTEMPTS: u32 = 3;

/// Requests made for the speech of one segment at most.
pub const TTS_ATTEMPTS: u32 = 3;

/// The `i`-th batch of `size` items out of `len`: the half-open index range
/// it covers.
pub open spec fn batch_range(len: int, size: int, i: int) -> (int, int) {
    (i * size, if (i + 1) * size <= len { (i + 1) * size } else { len })
}

/// `count` pieces of `size` cover `len` items, and one fewer would not.
pub open spec fn covers_exactly(count: int, size: int, len: int) -> bool {
    &&& count * size >= len
    &&& count == 0 || (count - 1) * size < len
}

/// The index ranges of consecutive batches of `size` items (the last one
/// possibly shorter) covering `len` items, as `slice::chunks` cuts them.
pub fn batch_ranges(len: usize, size: usize) -> (r: Vec<(usize, usize)>)
    requires
        size > 0,
    ensures
        covers_exactly(r@.len() as int, size as int, len as int),
        forall|i: int|
            0 <= i < r@.len() ==> (#[trigger] r@[i]).0 == batch_range(len as int, size as int, i).0
                && r@[i].1 == batch_range(len as int, size as int, i).1,
{
    let mut r: Vec<(usize, usize)> = Vec::new();
    let mut start: usize = 0;
    proof {
        assert(r@.len() * size == 0) by (nonlinear_arith)
            requires
                r@.len() == 0,
        ;
    }
    while start < len
        invariant
            size > 0,
            start as int == if r@.len() * size <= len { r@.len() * size } else { len as int },
            r@.len() == 0 || (r@.len() - 1) * size < len,
            forall|i: int|
                0 <= i < r@.len() ==> (#[trigger] r@[i]).0 == batch_range(
                    len as int,
                    size as int,
                    i,
                ).0 && r@[i].1 == batch_range(len as int, size as int, i).1,
        decreases len - start,
    {
        let ghost k = r@.len() as int;
        proof {
            assert((k + 1) * size == k * size + size) by (nonlinear_arith);
        }
        let end = if len - start >= size {
            start + size
        } else {
            len
        };
        r.push((start, end));
        proof {
            assert(r@[k] == (start, end));
        }
        start = end;
    }
    r
}

/// Start (in seconds) of every chunk of `chunk_secs` seconds that the audio
/// is cut into: 0, `chunk_secs`, `2 * chunk_secs`, ... while the start is
/// before the end of the audio, which lasts at most `total_secs_ceil`
/// seconds (its duration rounded up). Audio of no length has no chunk,
/// whatever the chunk length.
pub fn chunk_starts(total_secs_ceil: u64, chunk_secs: u64) -> (r: Vec<u64>)
    requires
        chunk_secs > 0 || total_secs_ceil == 0,
        total_secs_ceil + chunk_secs <= u64::MAX,
    ensures
        covers_exactly(r@.len() as int, chunk_secs as int, total_secs_ceil as int),
        forall|i: int| 0 <= i < r@.len() ==> #[trigger] r@[i] == i * chunk_secs,
{
    let mut r: Vec<u64> = Vec::new();
    let mut start: u64 = 0;
    proof {
        assert(r@.len() * chunk_secs == 0) by (nonlinear_arith)
            requires
                r@.len() == 0,
        ;
    }
    while start < total_secs_ceil
        invariant
            chunk_secs > 0 || total_secs_ceil == 0,
            total_secs_ceil + chunk_secs <= u64::MAX,
            start as int == r@.len() * chunk_secs,
            r@.len() == 0 || (r@.len() - 1) * chunk_secs < total_secs_ceil,
            forall|i: int| 0 <= i < r@.len() ==> #[trigger] r@[i] == i * chunk_secs,
        decreases total_secs_ceil + chunk_secs - start,
    {
        let ghost k = r@.len() as int;
        proof {
            assert((k + 1) * chunk_secs == k * chunk_secs + chunk_secs) by (nonlinear_arith);
        }
        r.push(start);
        proof {
            assert(r@[k] == start);
        }
        start = start + chunk_secs;
    }
    r
}

/// Where a chunk that starts at `offset_ms` ends: `chunk_ms` later, or at
/// the end of the audio (`total_ms`) if that comes first, never before the
/// chunk's start.
pub open spec fn chunk_end(offset_ms: u64, chunk_ms: u64, total_ms: u64) -> u64 {
    if offset_ms + chunk_ms <= total_ms {
        (offset_ms + chunk_ms) as u64
    } else if offset_ms <= total_ms {
        total_ms
    } else {
        offset_ms
    }
}

/// The spans `(start_ms, end_ms)` of the chunks that start at `offsets_ms`,
/// each `chunk_ms` long and cut at the end of the audio.
pub fn chunk_spans(offsets_ms: &Vec<u64>, chunk_ms: u64, total_ms: u64) -> (r: Vec<(u64, u64)>)
    ensures
        r@.len() == offsets_ms@.len(),
        forall|i: int|
            0 <= i < r@.len() ==> #[trigger] r@[i] == (
                offsets_ms@[i],
                chunk_end(offsets_ms@[i], chunk_ms, total_ms),
            ),
{
    let mut r: Vec<(u64, u64)> = Vec::new();
    let mut i: usize = 0;
    while i < offsets_ms.len()
        invariant
            i <= offsets_ms@.len(),
            r@.len() == i,
            forall|j: int|
                0 <= j < i ==> #[trigger] r@[j] == (
                    offsets_ms@[j],
                    chunk_end(offsets_ms@[j], chunk_ms, total_ms),
                ),
        decreases offsets_ms@.len() - i,
    {
        let o = offsets_ms[i];
        let end = if o <= total_ms && chunk_ms <= total_ms - o {
            o + chunk_ms
        } else if o <= total_ms {
            total_ms
        } else {
            o
        };
        r.push((o, end));
        i = i + 1;
    }
    r
}

/// Seconds to wait after the failed attempt `attempt` (counted from zero)
/// to transcribe a chunk, or `None` when it was the last one allowed.
pub fn transcription_retry_wait_secs(attempt: u32) -> (r: Option<u64>)
    ensures
        r == if attempt + 1 < TRANSCRIPTION_ATTEMPTS {
            Some((2 * (attempt + 1)) as u64)
        } else {
            None
        },
{
    if attempt < TRANSCRIPTION_ATTEMPTS - 1 {
        Some(2 * (attempt as u64 + 1))
    } else {
        None
    }
}

/// Base wait (milliseconds) after the `retries`-th failed speech request.
pub open spec fn tts_base_wait_ms(retries: u32) -> u64 {
    if retries == 1 {
        2000
    } else if retries == 2 {
        4000
    } else {
        8000
    }
}

/// Milliseconds to wait before retrying the speech of segment `index` after
/// its `retries`-th failure: 2, 4 then 8 s, plus up to 30 % more, spread by
/// the segment's position so that parallel requests do not retry together.
pub fn tts_retry_wait_ms(retries: u32, index: usize) -> (ms: u64)
    ensures
        ms == tts_base_wait_ms(retries) + tts_base_wait_ms(retries) * 3 * (index % 7) / 70,
{
    let base: u64 = if retries == 1 {
        2000
    } else if retries == 2 {
        4000
    } else {
        8000
    };
    let spread = (index % 7) as u64;
    proof {
        assert(base * 3 * spread <= 8000 * 3 * 6) by (nonlinear_arith)
            requires
                base <= 8000,
                spread <= 6,
        ;
    }
    base + base * 3 * spread / 70
}

/// Whether more than 10 % of the `total` speech requests failed.
pub fn too_many_failures(failed: usize, total: usize) -> (b: bool)
    ensures
        b == (failed * 10 > total),
{
    (failed as u128) * 10 > total as u128
}

/// Total speech time of the segments, in milliseconds.
pub open spec fn speech_ms(segs: Seq<SegmentView>) -> int
    decreases segs.len(),
{
    if segs.len() == 0 {
        0
    } else {
        speech_ms(segs.drop_last()) + segs.last().duration()
    }
}

/// Total speech time of the segments, in milliseconds.
pub fn total_speech_ms(segs: &Vec<Segment>) -> (t: u128)
    requires
        forall|i: int| 0 <= i < segs@.len() ==> (#[trigger] segs@[i])@.well_formed(),
    ensures
        t == speech_ms(segs.deep_view()),
{
    let ghost v = segs.deep_view();
    let mut t: u128 = 0;
    let mut i: usize = 0;
    while i < segs.len()
        invariant
            i <= segs@.len(),
            v == segs.deep_view(),
            forall|j: int| 0 <= j < segs@.len() ==> (#[trigger] segs@[j])@.well_formed(),
            t == speech_ms(v.take(i as int)),
            t <= i * 0xffff_ffff_ffff_ffffu128,
        decreases segs@.len() - i,
    {
        proof {
            assert(v.take(i as int + 1).drop_last() =~= v.take(i as int));
            assert(v.take(i as int + 1).last() == segs@[i as int]@);
        }
        t = t + segs[i].duration_ms() as u128;
        i = i + 1;
    }
    proof {
        assert(v.take(segs@.len() as int) =~= v);
    }
    t
}

/// Silence between segment `i` and the next, zero when they overlap.
pub open spec fn gap_after(segs: Seq<SegmentView>, i: int) -> int {
    if segs[i + 1].start_ms >= segs[i].end_ms {
        segs[i + 1].start_ms - segs[i].end_ms
    } else {
        0
    }
}

/// The positions `i`, in increasing order, after which the silence before
/// segment `i + 1` is longer than `threshold_ms`.
pub fn gaps_over(segs: &Vec<Segment>, threshold_ms: u64) -> (r: Vec<usize>)
    ensures
        forall|k: int|
            0 <= k < r@.len() ==> #[trigger] r@[k] < segs@.len() - 1 && gap_after(
                segs.deep_view(),
                r@[k] as int,
            ) > threshold_ms,
        forall|i: int|
            0 <= i < segs@.len() - 1 && gap_after(segs.deep_view(), i) > threshold_ms ==> r@.contains(
                i as usize,
            ),
        forall|a: int, b: int| 0 <= a < b < r@.len() ==> r@[a] < r@[b],
{
    let ghost v = segs.deep_view();
    let mut r: Vec<usize> = Vec::new();
    let n = segs.len();
    let mut j: usize = 1;
    while j < n
        invariant
            n == segs@.len(),
            v == segs.deep_view(),
            1 <= j,
            forall|k: int|
                0 <= k < r@.len() ==> #[trigger] r@[k] < j - 1 && r@[k] < n - 1 && gap_after(
                    v,
                    r@[k] as int,
                ) > threshold_ms,
            forall|i: int| 0 <= i < j - 1 && gap_after(v, i) > threshold_ms ==> r@.contains(i as usize),
            forall|a: int, b: int| 0 <= a < b < r@.len() ==> r@[a] < r@[b],
        decreases n - j,
    {
        let i = j - 1;
        let next_start = segs[j].start_ms;
        let end = segs[i].end_ms;
        let gap = if next_start >= end {
            next_start - end
        } else {
            0
        };
        proof {
            assert(v[j as int] == segs@[j as int]@ && v[i as int] == segs@[i as int]@);
        }
        let ghost old_r = r@;
        if gap > threshold_ms {
            r.push(i);
            proof {
                assert(r@[r@.len() - 1] == i);
            }
        }
        proof {
            assert forall|m: int| 0 <= m < j && gap_after(v, m) > threshold_ms implies r@.contains(
                m as usize,
            ) by {
                if m == i {
                    assert(r@[r@.len() - 1] == i);
                } else {
                    assert(old_r.contains(m as usize));
                    let idx = choose|idx: int| 0 <= idx < old_r.len() && old_r[idx] == m as usize;
                    assert(r@[idx] == m as usize);
                }
            }
        }
        j = j + 1;
    }
    r
}

} // verus!
