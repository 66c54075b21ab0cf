//! Cleaning of a freshly transcribed timeline: overlaps left by chunk
//! boundaries, over-long segments and out-of-order timestamps.
use vstd::prelude::*;
use crate::segment::{Segment, SegmentView};
use crate::text::{texts_similar, similar, words, join_words, word_views, split_words, join_word_chars, string_from_chars, is_word, lemma_words_are_words, lemma_words_of_joined};

verus! {

/// `s` moved to start at `t`.
pub open spec fn with_start(s: SegmentView, t: u64) -> SegmentView {
    SegmentView { start_ms: t, ..s }
}

/// `s` cut to end at `t`.
pub open spec fn with_end(s: SegmentView, t: u64) -> SegmentView {
    SegmentView { end_ms: t, ..s }
}

/// Overlaps shorter than this (in milliseconds) only move the later start.
pub const MIN_RESOLVED_OVERLAP_MS: u64 = 100;

/// The transcription chunk of an instant: the last chunk of `chunks`
/// (spans `(start_ms, end_ms)` in order) that starts at or before `t`, the
/// empty span at zero when there is none. A transcribed segment never
/// starts before its own chunk, as its timestamps are moved by the chunk's
/// offset.
pub open spec fn chunk_of(chunks: Seq<(u64, u64)>, t: u64) -> (u64, u64)
    decreases chunks.len(),
{
    if chunks.len() == 0 {
        (0, 0)
    } else if chunks.last().0 <= t {
        chunks.last()
    } else {
        chunk_of(chunks.drop_last(), t)
    }
}

/// How far a segment lies from the middle of its chunk: twice the distance
/// between its midpoint and the chunk's.
pub open spec fn off_centre(seg: SegmentView, chunks: Seq<(u64, u64)>) -> int {
    let c = chunk_of(chunks, seg.start_ms);
    let d = (seg.start_ms + seg.end_ms) - (c.0 + c.1);
    if d >= 0 {
        d
    } else {
        -d
    }
}

/// How the last kept segment and the next one are reconciled, or `None`
/// where a midpoint would not fit in `u64`.
pub open spec fn dedup_step(result: Seq<SegmentView>, seg: SegmentView, chunks: Seq<(u64, u64)>) -> Option<
    Seq<SegmentView>,
> {
    let li = result.len() - 1;
    let last = result.last();
    if seg.start_ms >= last.end_ms {
        Some(result.push(seg))
    } else if last.end_ms - seg.start_ms < MIN_RESOLVED_OVERLAP_MS {
        let moved = with_start(seg, last.end_ms);
        if moved.end_ms > moved.start_ms {
            Some(result.push(moved))
        } else {
            Some(result)
        }
    } else if similar(last.text, seg.text) {
        if off_centre(seg, chunks) < off_centre(last, chunks) {
            let start = if seg.start_ms >= last.start_ms { seg.start_ms } else { last.start_ms };
            Some(result.update(li, with_start(seg, start)))
        } else {
            Some(result)
        }
    } else if last.end_ms + seg.start_ms > u64::MAX {
        None
    } else {
        let mid = ((last.end_ms + seg.start_ms) / 2) as u64;
        let cut = with_end(last, mid);
        let moved = with_start(seg, mid);
        if moved.end_ms > moved.start_ms && cut.end_ms > cut.start_ms {
            Some(result.update(li, cut).push(moved))
        } else {
            Some(result.update(li, cut))
        }
    }
}

/// The segments once overlaps are resolved, from first to last.
pub open spec fn deduplicated(segs: Seq<SegmentView>, chunks: Seq<(u64, u64)>) -> Option<
    Seq<SegmentView>,
>
    decreases segs.len(),
{
    if segs.len() <= 1 {
        Some(segs)
    } else {
        match deduplicated(segs.drop_last(), chunks) {
            None => None,
            Some(r) => dedup_step(r, segs.last(), chunks),
        }
    }
}

proof fn lemma_dedup_prefix(segs: Seq<SegmentView>, chunks: Seq<(u64, u64)>, k: int)
    requires
        0 <= k <= segs.len(),
        deduplicated(segs, chunks) is Some,
    ensures
        deduplicated(segs.take(k), chunks) is Some,
    decreases segs.len(),
{
    if k < segs.len() {
        assert(segs.drop_last().take(k) =~= segs.take(k));
        lemma_dedup_prefix(segs.drop_last(), chunks, k);
    } else {
        assert(segs.take(k) =~= segs);
    }
}

proof fn lemma_dedup_nonempty(segs: Seq<SegmentView>, chunks: Seq<(u64, u64)>)
    requires
        deduplicated(segs, chunks) is Some,
        segs.len() > 0,
    ensures
        deduplicated(segs, chunks).unwrap().len() > 0,
    decreases segs.len(),
{
    if segs.len() > 1 {
        lemma_dedup_nonempty(segs.drop_last(), chunks);
    }
}

/// The chunk of instant `t`: see `chunk_of`.
fn find_chunk(chunks: &Vec<(u64, u64)>, t: u64) -> (c: (u64, u64))
    ensures
        c == chunk_of(chunks@, t),
{
    let mut k: usize = chunks.len();
    proof {
        assert(chunks@.take(k as int) =~= chunks@);
    }
    while k > 0
        invariant
            k <= chunks@.len(),
            chunk_of(chunks@, t) == chunk_of(chunks@.take(k as int), t),
            forall|j: int| k <= j < chunks@.len() ==> chunks@[j].0 > t,
        decreases k,
    {
        let ghost pre = chunks@.take(k as int);
        proof {
            assert(pre.drop_last() =~= chunks@.take(k as int - 1));
            assert(pre.last() == chunks@[k as int - 1]);
        }
        if chunks[k - 1].0 <= t {
            return chunks[k - 1];
        }
        k = k - 1;
    }
    (0, 0)
}

/// How far `seg` lies from the middle of its chunk: see `off_centre`.
fn centre_distance(seg: &Segment, chunks: &Vec<(u64, u64)>) -> (d: u128)
    ensures
        d == off_centre(seg@, chunks@),
{
    let c = find_chunk(chunks, seg.start_ms);
    let a = seg.start_ms as u128 + seg.end_ms as u128;
    let b = c.0 as u128 + c.1 as u128;
    if a >= b {
        a - b
    } else {
        b - a
    }
}

/// Removes the overlaps between consecutive segments (those that chunk
/// boundaries leave, the segments being in order of start). `chunks` are
/// the spans of the transcription chunks, in order. A later segment that
/// overlaps the last kept one by under 100 ms starts where that one ends.
/// Otherwise, when their texts are similar (more than half of their words
/// shared) they are one utterance transcribed twice, and the one lying more
/// centrally in its chunk is kept (the earlier on a tie; a later one kept
/// starts no earlier than the one it replaces); when their texts differ
/// both are cut at the midpoint of the overlap.
///
/// `None` where a midpoint does not fit in `u64`.
pub fn deduplicate_segments(segments: Vec<Segment>, chunks: &Vec<(u64, u64)>) -> (r: Option<
    Vec<Segment>,
>)
    ensures
        r.deep_view() == deduplicated(segments.deep_view(), chunks@),
{
    if segments.len() == 0 {
        return Some(segments);
    }
    let ghost input = segments.deep_view();
    let mut result: Vec<Segment> = Vec::new();
    result.push(segments[0].duplicate());
    proof {
        assert(input.take(1) =~= seq![input[0]]);
        assert(result.deep_view() =~= seq![input[0]]);
    }
    let n = segments.len();
    let mut i: usize = 1;
    while i < n
        invariant
            n == segments.len(),
            input == segments.deep_view(),
            1 <= i <= n,
            result.len() > 0,
            deduplicated(input.take(i as int), chunks@) == Some(result.deep_view()),
        decreases n - i,
    {
        proof {
            if deduplicated(input, chunks@) is Some {
                lemma_dedup_prefix(input, chunks@, i as int + 1);
            }
            assert(input.take(i as int + 1).drop_last() =~= input.take(i as int));
            assert(input.take(i as int + 1).last() == input[i as int]);
        }
        let ghost before = result.deep_view();
        let seg = &segments[i];
        let li = result.len() - 1;
        let last_start = result[li].start_ms;
        let last_end = result[li].end_ms;
        if seg.start_ms >= last_end {
            result.push(seg.duplicate());
            proof {
                assert(result.deep_view() =~= before.push(seg@));
            }
        } else if last_end - seg.start_ms < MIN_RESOLVED_OVERLAP_MS {
            let mut moved = seg.duplicate();
            moved.start_ms = last_end;
            if moved.end_ms > moved.start_ms {
                result.push(moved);
                proof {
                    assert(result.deep_view() =~= before.push(with_start(seg@, last_end)));
                }
            }
        } else if texts_similar(&result[li].text, &seg.text) {
            if centre_distance(seg, chunks) < centre_distance(&result[li], chunks) {
                let mut moved = seg.duplicate();
                moved.start_ms = if seg.start_ms >= last_start {
                    seg.start_ms
                } else {
                    last_start
                };
                result.set(li, moved);
                proof {
                    assert(result.deep_view() =~= before.update(li as int, moved@));
                }
            }
        } else {
            if last_end > u64::MAX - seg.start_ms {
                return None;
            }
            let mid = (last_end + seg.start_ms) / 2;
            let mut cut = result[li].duplicate();
            cut.end_ms = mid;
            let mut moved = seg.duplicate();
            moved.start_ms = mid;
            let keep_moved = moved.end_ms > moved.start_ms && cut.end_ms > cut.start_ms;
            result.set(li, cut);
            proof {
                assert(result.deep_view() =~= before.update(li as int, with_end(before.last(), mid)));
            }
            if keep_moved {
                let ghost mid_state = result.deep_view();
                result.push(moved);
                proof {
                    assert(result.deep_view() =~= mid_state.push(with_start(seg@, mid)));
                }
            }
        }
        i = i + 1;
    }
    proof {
        assert(input.take(n as int) =~= input);
    }
    Some(result)
}

/// Consecutive segments do not overlap: each ends no later than the next
/// one starts.
pub open spec fn no_overlaps(segs: Seq<SegmentView>) -> bool {
    forall|i: int| 0 <= i < segs.len() - 1 ==> #[trigger] segs[i].end_ms <= segs[i + 1].start_ms
}

/// After overlaps are resolved, no segment overlaps the one after it,
/// whatever the input.
pub proof fn lemma_deduplicated_has_no_overlaps(segs: Seq<SegmentView>, chunks: Seq<(u64, u64)>)
    requires
        deduplicated(segs, chunks) is Some,
    ensures
        no_overlaps(deduplicated(segs, chunks).unwrap()),
    decreases segs.len(),
{
    if segs.len() > 1 {
        let prefix = segs.drop_last();
        lemma_deduplicated_has_no_overlaps(prefix, chunks);
        lemma_dedup_nonempty(prefix, chunks);
        let r = deduplicated(prefix, chunks).unwrap();
        let out = deduplicated(segs, chunks).unwrap();
        let li = r.len() - 1;
        assert forall|i: int| 0 <= i < out.len() - 1 implies #[trigger] out[i].end_ms
            <= out[i + 1].start_ms by {
            if i < li {
                assert(out[i] == r[i]);
                if i + 1 < li {
                    assert(out[i + 1] == r[i + 1]);
                } else {
                    assert(r[i].end_ms <= r[li].start_ms);
                }
            }
        }
    }
}

/// A timeline without overlaps is left as it is by overlap removal.
proof fn lemma_dedup_keeps_disjoint(segs: Seq<SegmentView>, chunks: Seq<(u64, u64)>)
    requires
        no_overlaps(segs),
    ensures
        deduplicated(segs, chunks) == Some(segs),
    decreases segs.len(),
{
    if segs.len() > 1 {
        let prefix = segs.drop_last();
        assert(no_overlaps(prefix)) by {
            assert forall|i: int| 0 <= i < prefix.len() - 1 implies #[trigger] prefix[i].end_ms
                <= prefix[i + 1].start_ms by {
                assert(segs[i].end_ms <= segs[i + 1].start_ms);
            }
        }
        lemma_dedup_keeps_disjoint(prefix, chunks);
        assert(segs[segs.len() - 2].end_ms <= segs[segs.len() - 1].start_ms);
        assert(prefix.push(segs.last()) =~= segs);
    }
}

/// Removing overlaps twice gives the same as removing them once: the
/// result of a first pass comes back unchanged.
pub proof fn lemma_dedup_idempotent(segs: Seq<SegmentView>, chunks: Seq<(u64, u64)>)
    requires
        deduplicated(segs, chunks) is Some,
    ensures
        deduplicated(deduplicated(segs, chunks).unwrap(), chunks) == deduplicated(segs, chunks),
{
    lemma_deduplicated_has_no_overlaps(segs, chunks);
    lemma_dedup_keeps_disjoint(deduplicated(segs, chunks).unwrap(), chunks);
}

proof fn lemma_dedup_bounded(segs: Seq<SegmentView>, chunks: Seq<(u64, u64)>)
    requires
        half_bounded(segs),
    ensures
        deduplicated(segs, chunks) is Some,
        half_bounded(deduplicated(segs, chunks).unwrap()),
    decreases segs.len(),
{
    if segs.len() > 1 {
        let prefix = segs.drop_last();
        assert(half_bounded(prefix)) by {
            assert forall|i: int| 0 <= i < prefix.len() implies (#[trigger] prefix[i]).start_ms
                <= u64::MAX / 2 && prefix[i].end_ms <= u64::MAX / 2 by {
                assert(prefix[i] == segs[i]);
            }
        }
        lemma_dedup_bounded(prefix, chunks);
        lemma_dedup_nonempty(prefix, chunks);
        let r = deduplicated(prefix, chunks).unwrap();
        let s = segs.last();
        assert(s == segs[segs.len() - 1]);
        let last = r[r.len() - 1];
        let li = r.len() - 1;
        let out = deduplicated(segs, chunks).unwrap();
        assert forall|i: int| 0 <= i < out.len() implies (#[trigger] out[i]).start_ms
            <= u64::MAX / 2 && out[i].end_ms <= u64::MAX / 2 by {
            if i < li {
                assert(out[i] == r[i]);
            }
        }
    }
}

/// Overlap removal is defined on every list of segments whose timestamps
/// are at most half of `u64::MAX`: no midpoint it computes overflows.
pub proof fn lemma_deduplicated_defined(segs: Seq<SegmentView>, chunks: Seq<(u64, u64)>)
    requires
        half_bounded(segs),
    ensures
        deduplicated(segs, chunks) is Some,
{
    lemma_dedup_bounded(segs, chunks);
}

/// Segments longer than this (in milliseconds) are cut in two.
pub const MAX_SEGMENT_DURATION_MS: u64 = 15000;

/// A segment longer than 15 s cut at its midpoint, so that the halves
/// cover the same span: the first half keeps the first half of the words
/// (and the translation), the second half the rest of the words (and no
/// translation). A text of fewer than two words cannot be shared out: it
/// stays whole in the first half and the second half has no text.
pub open spec fn split_long(seg: SegmentView) -> Seq<SegmentView> {
    if seg.duration() > MAX_SEGMENT_DURATION_MS {
        let mid = ((seg.start_ms + seg.end_ms) / 2) as u64;
        let ws = words(seg.text);
        let half = ws.len() / 2;
        let first_text = if ws.len() >= 2 { join_words(ws.take(half as int)) } else { seg.text };
        let second_text = if ws.len() >= 2 { join_words(ws.skip(half as int)) } else { seq![] };
        seq![
            SegmentView {
                start_ms: seg.start_ms,
                end_ms: mid,
                text: first_text,
                translated_text: seg.translated_text,
            },
            SegmentView { start_ms: mid, end_ms: seg.end_ms, text: second_text, translated_text: seq![] },
        ]
    } else {
        seq![seg]
    }
}

/// Every segment, long ones cut in two.
pub open spec fn split_all(segs: Seq<SegmentView>) -> Seq<SegmentView>
    decreases segs.len(),
{
    if segs.len() == 0 {
        seq![]
    } else {
        split_all(segs.drop_last()) + split_long(segs.last())
    }
}

/// A segment can be cut: it does not end before it starts, and if long its
/// midpoint is computed without overflow.
pub open spec fn ok_to_split(seg: SegmentView) -> bool {
    seg.well_formed() && (seg.duration() > MAX_SEGMENT_DURATION_MS ==> seg.start_ms + seg.end_ms
        <= u64::MAX)
}

/// Every segment can be cut.
pub open spec fn can_split(segs: Seq<SegmentView>) -> bool {
    forall|i: int| 0 <= i < segs.len() ==> ok_to_split(#[trigger] segs[i])
}

/// Where segment `i` starts before segment `i - 1` ends, both are cut at
/// the midpoint of the overlap. `None` if the midpoint overflows.
pub open spec fn fix_pair(r: Seq<SegmentView>, i: int) -> Option<Seq<SegmentView>> {
    if r[i].start_ms < r[i - 1].end_ms {
        if r[i - 1].end_ms + r[i].start_ms > u64::MAX {
            None
        } else {
            let m = ((r[i - 1].end_ms + r[i].start_ms) / 2) as u64;
            Some(r.update(i - 1, with_end(r[i - 1], m)).update(i, with_start(r[i], m)))
        }
    } else {
        Some(r)
    }
}

/// The segments after fixing the pairs `(0, 1)`, ..., `(k - 2, k - 1)` in
/// that order.
pub open spec fn fix_upto(r: Seq<SegmentView>, k: int) -> Option<Seq<SegmentView>>
    decreases k,
{
    if k <= 1 {
        Some(r)
    } else {
        match fix_upto(r, k - 1) {
            None => None,
            Some(r2) => fix_pair(r2, k - 1),
        }
    }
}

/// The timeline after cutting long segments and removing overlaps between
/// neighbours, or `None` where that is undefined.
pub open spec fn validated(segs: Seq<SegmentView>) -> Option<Seq<SegmentView>> {
    if can_split(segs) {
        let r = split_all(segs);
        fix_upto(r, r.len() as int)
    } else {
        None
    }
}

proof fn lemma_fix_len(r: Seq<SegmentView>, k: int)
    requires
        fix_upto(r, k) is Some,
        k <= r.len(),
    ensures
        fix_upto(r, k).unwrap().len() == r.len(),
    decreases k,
{
    if k > 1 {
        lemma_fix_len(r, k - 1);
    }
}

/// Cuts a segment longer than 15 s in two.
fn split_segment(seg: &Segment, out: &mut Vec<Segment>)
    requires
        seg@.well_formed(),
        seg@.duration() > MAX_SEGMENT_DURATION_MS ==> seg.start_ms + seg.end_ms <= u64::MAX,
    ensures
        final(out).deep_view() == old(out).deep_view() + split_long(seg@),
{
    let ghost before = out.deep_view();
    if seg.duration_ms() > MAX_SEGMENT_DURATION_MS {
        let mid = (seg.start_ms + seg.end_ms) / 2;
        let ws = split_words(seg.text.as_str());
        let ghost wv = words(seg.text@);
        let n = ws.len();
        let half = n / 2;
        let (first_text, second_text) = if n >= 2 {
            proof {
                assert(word_views(ws@).subrange(0, half as int) =~= wv.take(half as int));
                assert(word_views(ws@).subrange(half as int, n as int) =~= wv.skip(half as int));
            }
            let t1 = join_word_chars(ws.as_slice(), 0, half);
            let t2 = join_word_chars(ws.as_slice(), half, n);
            (string_from_chars(t1.as_slice()), string_from_chars(t2.as_slice()))
        } else {
            (seg.text.clone(), String::new())
        };
        let first = Segment {
            start_ms: seg.start_ms,
            end_ms: mid,
            text: first_text,
            translated_text: seg.translated_text.clone(),
        };
        out.push(first);
        let second = Segment {
            start_ms: mid,
            end_ms: seg.end_ms,
            text: second_text,
            translated_text: String::new(),
        };
        let ghost mid_state = out.deep_view();
        out.push(second);
        proof {
            assert(mid_state =~= before.push(first@));
            assert(out.deep_view() =~= before + split_long(seg@));
        }
    } else {
        out.push(seg.duplicate());
        proof {
            assert(out.deep_view() =~= before + split_long(seg@));
        }
    }
}

/// Cleans transcribed timestamps: segments longer than 15 s are cut in two
/// at their midpoint (the words shared out between the halves, the span
/// still covered), then every
/// segment that starts before its predecessor ends is made to meet it at
/// the midpoint of the overlap.
///
/// `None` where a segment ends before it starts or a midpoint does not fit
/// in `u64`.
pub fn validate_segment_timestamps(segments: Vec<Segment>) -> (r: Option<Vec<Segment>>)
    ensures
        r.deep_view() == validated(segments.deep_view()),
{
    let ghost input = segments.deep_view();
    let n = segments.len();
    if !splittable(&segments) {
        return None;
    }
    if segments.len() == 0 {
        proof {
            assert(split_all(input) =~= input);
        }
        return Some(segments);
    }
    proof {
        assert(can_split(input));
    }
    let mut result: Vec<Segment> = Vec::new();
    let mut i: usize = 0;
    while i < n
        invariant
            n == segments.len(),
            input == segments.deep_view(),
            i <= n,
            can_split(input),
            result.deep_view() == split_all(input.take(i as int)),
        decreases n - i,
    {
        proof {
            assert(input.take(i as int + 1).drop_last() =~= input.take(i as int));
            assert(input.take(i as int + 1).last() == input[i as int]);
            assert(input[i as int].well_formed());
        }
        split_segment(&segments[i], &mut result);
        i = i + 1;
    }
    proof {
        assert(input.take(n as int) =~= input);
    }
    let ghost split = result.deep_view();
    let m = result.len();
    let mut k: usize = 1;
    while k < m
        invariant
            m == result.len(),
            1 <= k,
            k <= m || m == 0,
            split.len() == m,
            split == split_all(input),
            input == segments.deep_view(),
            can_split(input),
            fix_upto(split, k as int) == Some(result.deep_view()),
        decreases m - k,
    {
        let ghost before = result.deep_view();
        let prev_end = result[k - 1].end_ms;
        let cur_start = result[k].start_ms;
        if cur_start < prev_end {
            if prev_end > u64::MAX - cur_start {
                proof {
                    assert(fix_upto(split, k as int + 1) is None);
                    lemma_fix_none_stays(split, k as int + 1, split.len() as int);
                    assert(validated(input) is None);
                }
                return None;
            }
            let mid = (prev_end + cur_start) / 2;
            let mut a = result[k - 1].duplicate();
            a.end_ms = mid;
            let mut b = result[k].duplicate();
            b.start_ms = mid;
            result.set(k - 1, a);
            result.set(k, b);
            proof {
                assert(result.deep_view() =~= before.update(k - 1, with_end(before[k - 1], mid)).update(
                    k as int,
                    with_start(before[k as int], mid),
                ));
            }
        }
        k = k + 1;
    }
    Some(result)
}

/// Whether every segment can be cut: see `can_split`.
fn splittable(segments: &Vec<Segment>) -> (b: bool)
    ensures
        b == can_split(segments.deep_view()),
{
    let ghost input = segments.deep_view();
    let n = segments.len();
    let mut i: usize = 0;
    while i < n
        invariant
            n == segments@.len(),
            input == segments.deep_view(),
            i <= n,
            forall|j: int| 0 <= j < i ==> ok_to_split(#[trigger] input[j]),
        decreases n - i,
    {
        let s = &segments[i];
        proof {
            assert(input[i as int] == s@);
        }
        if s.end_ms < s.start_ms || (s.end_ms - s.start_ms > MAX_SEGMENT_DURATION_MS && s.end_ms
            > u64::MAX - s.start_ms) {
            proof {
                assert(!ok_to_split(input[i as int]));
            }
            return false;
        }
        i = i + 1;
    }
    true
}

proof fn lemma_fix_none_stays(r: Seq<SegmentView>, j: int, k: int)
    requires
        j <= k,
        fix_upto(r, j) is None,
    ensures
        fix_upto(r, k) is None,
    decreases k,
{
    if j < k {
        lemma_fix_none_stays(r, j, k - 1);
    }
}

/// After validation no segment overlaps the one after it.
pub proof fn lemma_validated_has_no_overlaps(segs: Seq<SegmentView>)
    requires
        validated(segs) is Some,
    ensures
        no_overlaps(validated(segs).unwrap()),
{
    let r = split_all(segs);
    lemma_fix_no_overlaps(r, r.len() as int);
    lemma_fix_len(r, r.len() as int);
}

/// The words of every segment's transcript, in order.
pub open spec fn text_words(segs: Seq<SegmentView>) -> Seq<Seq<char>>
    decreases segs.len(),
{
    if segs.len() == 0 {
        seq![]
    } else {
        text_words(segs.drop_last()) + words(segs.last().text)
    }
}

/// The words of every segment's translation, in order.
pub open spec fn translation_words(segs: Seq<SegmentView>) -> Seq<Seq<char>>
    decreases segs.len(),
{
    if segs.len() == 0 {
        seq![]
    } else {
        translation_words(segs.drop_last()) + words(segs.last().translated_text)
    }
}

proof fn lemma_words_concat(a: Seq<SegmentView>, b: Seq<SegmentView>)
    ensures
        text_words(a + b) == text_words(a) + text_words(b),
        translation_words(a + b) == translation_words(a) + translation_words(b),
    decreases b.len(),
{
    if b.len() == 0 {
        assert(a + b =~= a);
        assert(text_words(a) + text_words(b) =~= text_words(a));
        assert(translation_words(a) + translation_words(b) =~= translation_words(a));
    } else {
        lemma_words_concat(a, b.drop_last());
        assert((a + b).drop_last() =~= a + b.drop_last());
        assert((a + b).last() == b.last());
        assert(text_words(a) + text_words(b.drop_last()) + words(b.last().text) =~= text_words(a)
            + (text_words(b.drop_last()) + words(b.last().text)));
        assert(translation_words(a) + translation_words(b.drop_last()) + words(
            b.last().translated_text,
        ) =~= translation_words(a) + (translation_words(b.drop_last()) + words(
            b.last().translated_text,
        )));
    }
}

proof fn lemma_single_words(x: SegmentView)
    ensures
        text_words(seq![x]) == words(x.text),
        translation_words(seq![x]) == words(x.translated_text),
{
    let one = seq![x];
    let none = Seq::<SegmentView>::empty();
    assert(one.drop_last() =~= none);
    assert(one.last() == x);
    assert(text_words(none) =~= Seq::<Seq<char>>::empty());
    assert(translation_words(none) =~= Seq::<Seq<char>>::empty());
    assert(text_words(one) == text_words(none) + words(x.text));
    assert(translation_words(one) == translation_words(none) + words(x.translated_text));
    assert(Seq::<Seq<char>>::empty() + words(x.text) =~= words(x.text));
    assert(Seq::<Seq<char>>::empty() + words(x.translated_text) =~= words(x.translated_text));
}

proof fn lemma_split_long_keeps_words(seg: SegmentView)
    ensures
        text_words(split_long(seg)) == words(seg.text),
        translation_words(split_long(seg)) == words(seg.translated_text),
{
    let ws = words(seg.text);
    if seg.duration() > MAX_SEGMENT_DURATION_MS && ws.len() < 2 {
        let pieces = split_long(seg);
        assert(pieces =~= seq![pieces[0]].push(pieces[1]));
        lemma_single_words(pieces[0]);
        assert(pieces.drop_last() =~= seq![pieces[0]]);
        assert(words(pieces[1].text) =~= Seq::<Seq<char>>::empty());
        assert(words(pieces[1].translated_text) =~= Seq::<Seq<char>>::empty());
        assert(words(seg.text) + Seq::<Seq<char>>::empty() =~= words(seg.text));
        assert(words(seg.translated_text) + Seq::<Seq<char>>::empty() =~= words(
            seg.translated_text,
        ));
    } else if seg.duration() > MAX_SEGMENT_DURATION_MS {
        let half = ws.len() / 2;
        lemma_words_are_words(seg.text);
        let a = ws.take(half as int);
        let b = ws.skip(half as int);
        assert forall|i: int| 0 <= i < a.len() implies is_word(#[trigger] a[i]) by {
            assert(a[i] == ws[i]);
        }
        assert forall|i: int| 0 <= i < b.len() implies is_word(#[trigger] b[i]) by {
            assert(b[i] == ws[half + i]);
        }
        lemma_words_of_joined(a);
        lemma_words_of_joined(b);
        let pieces = split_long(seg);
        assert(pieces.len() == 2);
        assert(pieces =~= seq![pieces[0]].push(pieces[1]));
        lemma_single_words(pieces[0]);
        assert(pieces.drop_last() =~= seq![pieces[0]]);
        assert(words(pieces[1].translated_text) =~= Seq::<Seq<char>>::empty());
        assert(a + b =~= ws);
        assert(words(seg.translated_text) + Seq::<Seq<char>>::empty() =~= words(
            seg.translated_text,
        ));
    } else {
        lemma_single_words(split_long(seg)[0]);
        assert(split_long(seg) =~= seq![split_long(seg)[0]]);
    }
}

proof fn lemma_split_all_keeps_words(segs: Seq<SegmentView>)
    ensures
        text_words(split_all(segs)) == text_words(segs),
        translation_words(split_all(segs)) == translation_words(segs),
    decreases segs.len(),
{
    if segs.len() > 0 {
        lemma_split_all_keeps_words(segs.drop_last());
        lemma_words_concat(split_all(segs.drop_last()), split_long(segs.last()));
        lemma_split_long_keeps_words(segs.last());
    }
}

proof fn lemma_fix_keeps_texts(r: Seq<SegmentView>, k: int)
    requires
        fix_upto(r, k) is Some,
        k <= r.len(),
    ensures
        fix_upto(r, k).unwrap().len() == r.len(),
        forall|i: int|
            0 <= i < r.len() ==> (#[trigger] fix_upto(r, k).unwrap()[i]).text == r[i].text
                && fix_upto(r, k).unwrap()[i].translated_text == r[i].translated_text,
    decreases k,
{
    if k > 1 {
        lemma_fix_keeps_texts(r, k - 1);
        let prev = fix_upto(r, k - 1).unwrap();
        let out = fix_upto(r, k).unwrap();
        assert forall|i: int| 0 <= i < r.len() implies (#[trigger] out[i]).text == r[i].text
            && out[i].translated_text == r[i].translated_text by {
            assert(out[i].text == prev[i].text && out[i].translated_text == prev[i].translated_text);
        }
    }
}

proof fn lemma_same_texts_same_words(a: Seq<SegmentView>, b: Seq<SegmentView>)
    requires
        a.len() == b.len(),
        forall|i: int|
            0 <= i < a.len() ==> (#[trigger] a[i]).text == b[i].text && a[i].translated_text
                == b[i].translated_text,
    ensures
        text_words(a) == text_words(b),
        translation_words(a) == translation_words(b),
    decreases a.len(),
{
    if a.len() > 0 {
        let (ia, ib) = (a.drop_last(), b.drop_last());
        assert forall|i: int| 0 <= i < ia.len() implies (#[trigger] ia[i]).text == ib[i].text
            && ia[i].translated_text == ib[i].translated_text by {
            assert(ia[i] == a[i] && ib[i] == b[i]);
        }
        lemma_same_texts_same_words(ia, ib);
        assert(a.last() == a[a.len() - 1] && b.last() == b[b.len() - 1]);
    }
}

/// Validation loses, adds and reorders no word: the words of the
/// transcripts, read segment after segment, are those of the input, and so
/// are the words of the translations (a cut segment's words are shared out
/// between its halves).
pub proof fn lemma_validated_keeps_words(segs: Seq<SegmentView>)
    requires
        validated(segs) is Some,
    ensures
        text_words(validated(segs).unwrap()) == text_words(segs),
        translation_words(validated(segs).unwrap()) == translation_words(segs),
{
    let r = split_all(segs);
    lemma_split_all_keeps_words(segs);
    lemma_fix_keeps_texts(r, r.len() as int);
    lemma_same_texts_same_words(validated(segs).unwrap(), r);
}

/// Every timestamp is at most half of `u64::MAX`, so that any midpoint of
/// two of them is computed without overflow.
pub open spec fn half_bounded(segs: Seq<SegmentView>) -> bool {
    forall|i: int|
        0 <= i < segs.len() ==> (#[trigger] segs[i]).start_ms <= u64::MAX / 2 && segs[i].end_ms
            <= u64::MAX / 2
}

proof fn lemma_split_all_bounded(segs: Seq<SegmentView>)
    requires
        half_bounded(segs),
    ensures
        half_bounded(split_all(segs)),
    decreases segs.len(),
{
    if segs.len() > 0 {
        let prefix = segs.drop_last();
        assert(half_bounded(prefix)) by {
            assert forall|i: int| 0 <= i < prefix.len() implies #[trigger] prefix[i].start_ms
                <= u64::MAX / 2 && prefix[i].end_ms <= u64::MAX / 2 by {
                assert(prefix[i] == segs[i]);
            }
        }
        lemma_split_all_bounded(prefix);
        let seg = segs[segs.len() - 1];
        let a = split_all(prefix);
        let b = split_long(seg);
        assert(half_bounded(b));
        assert forall|i: int| 0 <= i < (a + b).len() implies #[trigger] (a + b)[i].start_ms
            <= u64::MAX / 2 && (a + b)[i].end_ms <= u64::MAX / 2 by {
            if i < a.len() {
                assert((a + b)[i] == a[i]);
            } else {
                assert((a + b)[i] == b[i - a.len()]);
            }
        }
    }
}

proof fn lemma_fix_defined(r: Seq<SegmentView>, k: int)
    requires
        half_bounded(r),
        k <= r.len(),
    ensures
        fix_upto(r, k) is Some,
        half_bounded(fix_upto(r, k).unwrap()),
        fix_upto(r, k).unwrap().len() == r.len(),
    decreases k,
{
    if k > 1 {
        lemma_fix_defined(r, k - 1);
        let prev = fix_upto(r, k - 1).unwrap();
        assert(prev[k - 2].end_ms <= u64::MAX / 2 && prev[k - 1].start_ms <= u64::MAX / 2);
        let out = fix_upto(r, k).unwrap();
        assert forall|i: int| 0 <= i < out.len() implies #[trigger] out[i].start_ms <= u64::MAX
            / 2 && out[i].end_ms <= u64::MAX / 2 by {
            assert(prev[i].start_ms <= u64::MAX / 2 && prev[i].end_ms <= u64::MAX / 2);
        }
    }
}

/// Timestamp validation is defined on every timeline of well-formed
/// segments whose timestamps are at most half of `u64::MAX`: no duration it
/// computes is negative and no midpoint overflows.
pub proof fn lemma_validated_defined(segs: Seq<SegmentView>)
    requires
        forall|i: int| 0 <= i < segs.len() ==> #[trigger] segs[i].well_formed(),
        half_bounded(segs),
    ensures
        validated(segs) is Some,
{
    assert(can_split(segs)) by {
        assert forall|i: int| 0 <= i < segs.len() implies ok_to_split(#[trigger] segs[i]) by {
            assert(segs[i].well_formed());
            assert(segs[i].start_ms <= u64::MAX / 2 && segs[i].end_ms <= u64::MAX / 2);
        }
    }
    lemma_split_all_bounded(segs);
    lemma_fix_defined(split_all(segs), split_all(segs).len() as int);
}

/// Some segment of `segs` is being spoken at instant `t`.
pub open spec fn covers(segs: Seq<SegmentView>, t: int) -> bool {
    exists|k: int| 0 <= k < segs.len() && (#[trigger] segs[k]).start_ms <= t < segs[k].end_ms
}

proof fn lemma_covers_concat(a: Seq<SegmentView>, b: Seq<SegmentView>, t: int)
    ensures
        covers(a + b, t) <==> covers(a, t) || covers(b, t),
{
    let ab = a + b;
    if covers(ab, t) {
        let k = choose|k: int| 0 <= k < ab.len() && (#[trigger] ab[k]).start_ms <= t < ab[k].end_ms;
        if k < a.len() {
            assert(ab[k] == a[k]);
        } else {
            assert(ab[k] == b[k - a.len()]);
        }
    }
    if covers(a, t) {
        let k = choose|k: int| 0 <= k < a.len() && (#[trigger] a[k]).start_ms <= t < a[k].end_ms;
        assert(ab[k] == a[k]);
    }
    if covers(b, t) {
        let k = choose|k: int| 0 <= k < b.len() && (#[trigger] b[k]).start_ms <= t < b[k].end_ms;
        assert(ab[k + a.len()] == b[k]);
    }
}

proof fn lemma_covers_one(x: SegmentView, t: int)
    ensures
        covers(seq![x], t) <==> x.start_ms <= t < x.end_ms,
{
    if x.start_ms <= t < x.end_ms {
        assert(seq![x][0] == x);
    }
}

proof fn lemma_split_long_covers(seg: SegmentView, t: int)
    requires
        seg.well_formed(),
        seg.start_ms <= u64::MAX / 2,
        seg.end_ms <= u64::MAX / 2,
    ensures
        covers(split_long(seg), t) <==> seg.start_ms <= t < seg.end_ms,
{
    let pieces = split_long(seg);
    if seg.duration() > MAX_SEGMENT_DURATION_MS {
        assert(pieces =~= seq![pieces[0]] + seq![pieces[1]]);
        lemma_covers_concat(seq![pieces[0]], seq![pieces[1]], t);
        lemma_covers_one(pieces[0], t);
        lemma_covers_one(pieces[1], t);
    } else {
        lemma_covers_one(seg, t);
    }
}

proof fn lemma_split_all_covers(segs: Seq<SegmentView>, t: int)
    requires
        forall|i: int| 0 <= i < segs.len() ==> #[trigger] segs[i].well_formed(),
        half_bounded(segs),
    ensures
        covers(split_all(segs), t) <==> covers(segs, t),
    decreases segs.len(),
{
    if segs.len() > 0 {
        let init = segs.drop_last();
        let last = segs.last();
        assert(last == segs[segs.len() - 1]);
        assert forall|i: int| 0 <= i < init.len() implies #[trigger] init[i].well_formed() by {
            assert(init[i] == segs[i]);
        }
        assert(half_bounded(init)) by {
            assert forall|i: int| 0 <= i < init.len() implies (#[trigger] init[i]).start_ms
                <= u64::MAX / 2 && init[i].end_ms <= u64::MAX / 2 by {
                assert(init[i] == segs[i]);
            }
        }
        lemma_split_all_covers(init, t);
        lemma_covers_concat(split_all(init), split_long(last), t);
        lemma_split_long_covers(last, t);
        assert(init + seq![last] =~= segs);
        lemma_covers_concat(init, seq![last], t);
        lemma_covers_one(last, t);
    }
}

proof fn lemma_split_all_no_overlaps(segs: Seq<SegmentView>)
    requires
        forall|i: int| 0 <= i < segs.len() ==> #[trigger] segs[i].well_formed(),
        half_bounded(segs),
        no_overlaps(segs),
    ensures
        no_overlaps(split_all(segs)),
        segs.len() > 0 ==> split_all(segs).len() > 0 && split_all(segs).last().end_ms
            == segs.last().end_ms,
    decreases segs.len(),
{
    if segs.len() > 0 {
        let init = segs.drop_last();
        let last = segs.last();
        assert(last == segs[segs.len() - 1]);
        assert forall|i: int| 0 <= i < init.len() implies #[trigger] init[i].well_formed() by {
            assert(init[i] == segs[i]);
        }
        assert(half_bounded(init)) by {
            assert forall|i: int| 0 <= i < init.len() implies (#[trigger] init[i]).start_ms
                <= u64::MAX / 2 && init[i].end_ms <= u64::MAX / 2 by {
                assert(init[i] == segs[i]);
            }
        }
        assert(no_overlaps(init)) by {
            assert forall|i: int| 0 <= i < init.len() - 1 implies #[trigger] init[i].end_ms
                <= init[i + 1].start_ms by {
                assert(segs[i].end_ms <= segs[i + 1].start_ms);
            }
        }
        lemma_split_all_no_overlaps(init);
        let a = split_all(init);
        let b = split_long(last);
        assert(segs[segs.len() - 1].well_formed());
        assert(last.start_ms <= u64::MAX / 2 && last.end_ms <= u64::MAX / 2);
        assert(no_overlaps(b));
        assert(b.len() > 0 && b[0].start_ms == last.start_ms && b.last().end_ms == last.end_ms);
        if init.len() > 0 {
            assert(init.last() == segs[segs.len() - 2]);
            assert(a.last().end_ms <= b[0].start_ms);
        }
        let ab = a + b;
        assert forall|i: int| 0 <= i < ab.len() - 1 implies #[trigger] ab[i].end_ms
            <= ab[i + 1].start_ms by {
            if i < a.len() - 1 {
                assert(ab[i] == a[i] && ab[i + 1] == a[i + 1]);
            } else if i == a.len() - 1 {
                assert(ab[i] == a.last() && ab[i + 1] == b[0]);
            } else {
                assert(ab[i] == b[i - a.len()] && ab[i + 1] == b[i + 1 - a.len()]);
            }
        }
        assert(ab.last() == b.last());
    }
}

proof fn lemma_fix_keeps_disjoint(r: Seq<SegmentView>, k: int)
    requires
        no_overlaps(r),
        k <= r.len(),
    ensures
        fix_upto(r, k) == Some(r),
    decreases k,
{
    if k > 1 {
        lemma_fix_keeps_disjoint(r, k - 1);
        assert(r[k - 2].end_ms <= r[k - 1].start_ms);
    }
}

/// On a timeline without overlaps (well-formed segments, timestamps at most
/// half of `u64::MAX`), validation only cuts long segments, and the
/// instants that some segment covers are exactly those that some segment of
/// the input covers: cutting divides a segment without losing time.
pub proof fn lemma_validated_keeps_span(segs: Seq<SegmentView>)
    requires
        forall|i: int| 0 <= i < segs.len() ==> #[trigger] segs[i].well_formed(),
        half_bounded(segs),
        no_overlaps(segs),
    ensures
        validated(segs) == Some(split_all(segs)),
        forall|t: int| covers(validated(segs).unwrap(), t) <==> covers(segs, t),
{
    assert(can_split(segs)) by {
        assert forall|i: int| 0 <= i < segs.len() implies ok_to_split(#[trigger] segs[i]) by {
            assert(segs[i].well_formed());
            assert(segs[i].start_ms <= u64::MAX / 2 && segs[i].end_ms <= u64::MAX / 2);
        }
    }
    lemma_split_all_no_overlaps(segs);
    lemma_fix_keeps_disjoint(split_all(segs), split_all(segs).len() as int);
    assert forall|t: int| covers(validated(segs).unwrap(), t) <==> covers(segs, t) by {
        lemma_split_all_covers(segs, t);
    }
}

proof fn lemma_fix_no_overlaps(r: Seq<SegmentView>, k: int)
    requires
        fix_upto(r, k) is Some,
        k <= r.len(),
    ensures
        ({
            let out = fix_upto(r, k).unwrap();
            forall|i: int| 0 <= i < k - 1 ==> #[trigger] out[i].end_ms <= out[i + 1].start_ms
        }),
        forall|i: int| k <= i < r.len() ==> #[trigger] fix_upto(r, k).unwrap()[i] == r[i],
    decreases k,
{
    lemma_fix_len(r, k);
    if k > 1 {
        lemma_fix_no_overlaps(r, k - 1);
        lemma_fix_len(r, k - 1);
        let prev = fix_upto(r, k - 1).unwrap();
        let out = fix_upto(r, k).unwrap();
        assert forall|i: int| 0 <= i < k - 1 implies #[trigger] out[i].end_ms <= out[i + 1].start_ms by {
            if i < k - 2 {
                assert(out[i] == prev[i]);
                assert(out[i + 1].start_ms == prev[i + 1].start_ms);
            }
        }
    }
}
/// Segments in order of start.
pub open spec fn sorted_by_start(segs: Seq<SegmentView>) -> bool {
    forall|i: int, j: int|
        0 <= i <= j < segs.len() ==> #[trigger] segs[i].start_ms <= #[trigger] segs[j].start_ms
}

/// Whether a segment starts at `k`.
pub open spec fn starts_at(k: u64) -> spec_fn(SegmentView) -> bool {
    |s: SegmentView| s.start_ms == k
}

/// `out` is `input` sorted by start, stably: in order of start, and the
/// segments that start at any one instant are those of the input, in the
/// input's order.
pub open spec fn stable_sorted(input: Seq<SegmentView>, out: Seq<SegmentView>) -> bool {
    &&& out.len() == input.len()
    &&& sorted_by_start(out)
    &&& forall|k: u64| #[trigger] out.filter(starts_at(k)) == input.filter(starts_at(k))
}

/// Position after every segment of `out` that starts no later than `t`.
fn insertion_point(out: &Vec<Segment>, t: u64) -> (p: usize)
    requires
        sorted_by_start(out.deep_view()),
    ensures
        p <= out@.len(),
        forall|i: int| 0 <= i < p ==> #[trigger] out@[i].start_ms <= t,
        forall|i: int| p <= i < out@.len() ==> #[trigger] out@[i].start_ms > t,
{
    let ghost v = out.deep_view();
    let mut p: usize = 0;
    while p < out.len() && out[p].start_ms <= t
        invariant
            p <= out@.len(),
            v == out.deep_view(),
            sorted_by_start(v),
            forall|i: int| 0 <= i < p ==> #[trigger] out@[i].start_ms <= t,
        decreases out@.len() - p,
    {
        p = p + 1;
    }
    proof {
        assert forall|i: int| p <= i < out@.len() implies #[trigger] out@[i].start_ms > t by {
            assert(v[p as int].start_ms <= v[i].start_ms);
        }
    }
    p
}

/// The segments in order of start; segments that start together keep their
/// order (the stable sort that `sort_by_key` performs).
pub fn sort_by_start(segments: Vec<Segment>) -> (out: Vec<Segment>)
    ensures
        stable_sorted(segments.deep_view(), out.deep_view()),
{
    let ghost input = segments.deep_view();
    let mut out: Vec<Segment> = Vec::new();
    let n = segments.len();
    let mut i: usize = 0;
    while i < n
        invariant
            n == segments@.len(),
            input == segments.deep_view(),
            i <= n,
            out@.len() == i,
            sorted_by_start(out.deep_view()),
            forall|k: u64| #[trigger] out.deep_view().filter(starts_at(k)) == input.take(i as int).filter(
                starts_at(k),
            ),
        decreases n - i,
    {
        let x = segments[i].duplicate();
        let t = x.start_ms;
        let p = insertion_point(&out, t);
        let ghost before = out.deep_view();
        out.insert(p, x);
        let ghost after = out.deep_view();
        proof {
            assert(after =~= before.insert(p as int, x@));
            let a = before.take(p as int);
            let b = before.skip(p as int);
            assert(before =~= a + b);
            assert(after =~= a.push(x@) + b);
            assert(input.take(i as int + 1) =~= input.take(i as int).push(x@));
            assert forall|k: u64| #[trigger] after.filter(starts_at(k)) == input.take(i as int + 1).filter(
                starts_at(k),
            ) by {
                let f = starts_at(k);
                Seq::filter_distributes_over_add(a.push(x@), b, f);
                Seq::filter_distributes_over_add(a, b, f);
                a.lemma_filter_push(x@, f);
                input.take(i as int).lemma_filter_push(x@, f);
                if k == t {
                    assert forall|j: int| 0 <= j < b.len() implies !f(b[j]) by {
                        assert(b[j] == before[p + j]);
                    }
                    b.lemma_all_neg_filter_empty(f);
                    assert(b.filter(f) =~= Seq::<SegmentView>::empty());
                    assert(a.filter(f) + b.filter(f) =~= a.filter(f));
                    assert(a.filter(f).push(x@) + b.filter(f) =~= a.filter(f).push(x@));
                }
            }
            assert forall|u: int, w: int| 0 <= u <= w < after.len() implies #[trigger] after[u].start_ms
                <= #[trigger] after[w].start_ms by {
                if u < p && w > p {
                    assert(after[u] == before[u] && after[w] == before[w - 1]);
                } else if u < p && w == p {
                    assert(after[u] == before[u]);
                } else if u == p && w > p {
                    assert(after[w] == before[w - 1]);
                } else if u > p {
                    assert(after[u] == before[u - 1] && after[w] == before[w - 1]);
                } else if w < p {
                    assert(after[u] == before[u] && after[w] == before[w]);
                }
            }
        }
        i = i + 1;
    }
    proof {
        assert(input.take(n as int) =~= input);
    }
    out
}

} // verus!
