//! Grouping of short segments before speech synthesis.
use vstd::prelude::*;
use crate::segment::{Segment, SegmentView};
use crate::text::{spaced, str_len, text_len, join_spaced};
use crate::cleanup::no_overlaps;

verus! {

/// Segments shorter than this (in milliseconds) are grouped with the next one.
pub const MIN_SEGMENT_DURATION_MS: u64 = 2000;

/// Highest speaking rate, in bytes of translated text per second, that a
/// grouping may produce.
pub const MAX_MERGED_RATE: u64 = 14;

/// `acc` stretched to the end of `seg`, with both texts joined by a space.
pub open spec fn absorb(acc: SegmentView, seg: SegmentView) -> SegmentView {
    SegmentView {
        start_ms: acc.start_ms,
        end_ms: seg.end_ms,
        text: spaced(acc.text, seg.text),
        translated_text: spaced(acc.translated_text, seg.translated_text),
    }
}

/// Whether `seg` is too short to be spoken alone.
pub open spec fn is_short(seg: SegmentView) -> bool {
    seg.duration() < MIN_SEGMENT_DURATION_MS
}

/// Silence between `a` and `b`, zero when they overlap.
pub open spec fn gap_between(earlier_end: u64, later_start: u64) -> int {
    if later_start >= earlier_end { later_start - earlier_end } else { 0 }
}

/// Whether joining `acc` and `seg` would ask for more than
/// `MAX_MERGED_RATE` bytes of translation per second.
pub open spec fn too_fast(acc: SegmentView, seg: SegmentView) -> bool {
    let merged_len = str_len(acc.translated_text) + 1 + str_len(seg.translated_text);
    let merged_ms = seg.end_ms - acc.start_ms;
    merged_ms > 0 && merged_len * 1000 > MAX_MERGED_RATE * merged_ms
}

/// `seg` queued as the new pending group when short, emitted otherwise;
/// `None` when `seg` ends before it starts, as its duration is then negative.
pub open spec fn start_group(result: Seq<SegmentView>, seg: SegmentView) -> Option<
    (Seq<SegmentView>, Option<SegmentView>),
> {
    if !seg.well_formed() {
        None
    } else if is_short(seg) {
        Some((result, Some(seg)))
    } else {
        Some((result.push(seg), None))
    }
}

/// One step of the grouping: the emitted segments and the pending group
/// after looking at `seg`. `None` where a duration it computes would be
/// negative: that of a segment that starts a group, or the span from the
/// pending group to the end of `seg`.
pub open spec fn merge_step(
    result: Seq<SegmentView>,
    pending: Option<SegmentView>,
    seg: SegmentView,
) -> Option<(Seq<SegmentView>, Option<SegmentView>)> {
    match pending {
        None => start_group(result, seg),
        Some(acc) => {
            if !acc.well_formed() {
                None
            } else {
                let max_gap: int = if acc.duration() < 1000 { 2000 } else { 500 };
                if gap_between(acc.end_ms, seg.start_ms) <= max_gap {
                    if seg.end_ms < acc.start_ms {
                        None
                    } else if too_fast(acc, seg) {
                        start_group(result.push(acc), seg)
                    } else {
                        let merged = absorb(acc, seg);
                        if is_short(merged) {
                            Some((result, Some(merged)))
                        } else {
                            Some((result.push(merged), None))
                        }
                    }
                } else {
                    start_group(result.push(acc), seg)
                }
            }
        }
    }
}

/// The grouping state after the whole of `segs`.
pub open spec fn merge_state(segs: Seq<SegmentView>) -> Option<
    (Seq<SegmentView>, Option<SegmentView>),
>
    decreases segs.len(),
{
    if segs.len() == 0 {
        Some((seq![], None))
    } else {
        match merge_state(segs.drop_last()) {
            None => None,
            Some(st) => merge_step(st.0, st.1, segs.last()),
        }
    }
}

/// The pending group at the end joins the last emitted segment when it
/// follows it within 500 ms, and is emitted alone otherwise.
pub open spec fn merge_flush(result: Seq<SegmentView>, pending: Option<SegmentView>) -> Seq<
    SegmentView,
> {
    match pending {
        None => result,
        Some(acc) => {
            if result.len() > 0 && gap_between(result.last().end_ms, acc.start_ms) <= 500 {
                result.update(result.len() - 1, absorb(result.last(), acc))
            } else {
                result.push(acc)
            }
        }
    }
}

/// The segments after grouping, or `None` where a step of it would compute a
/// negative duration.
pub open spec fn merged_segments(segs: Seq<SegmentView>) -> Option<Seq<SegmentView>> {
    match merge_state(segs) {
        None => None,
        Some(st) => Some(merge_flush(st.0, st.1)),
    }
}

/// A new segment covering `acc` and then `seg`.
fn absorb_segment(acc: &Segment, seg: &Segment) -> (r: Segment)
    ensures
        r@ == absorb(acc@, seg@),
{
    Segment {
        start_ms: acc.start_ms,
        end_ms: seg.end_ms,
        text: join_spaced(&acc.text, &seg.text),
        translated_text: join_spaced(&acc.translated_text, &seg.translated_text),
    }
}

/// Queues `seg` as the pending group when short, emits it otherwise.
fn begin_group(result: &mut Vec<Segment>, seg: &Segment) -> (pending: Option<Segment>)
    requires
        seg@.well_formed(),
    ensures
        pending matches Some(p) ==> p@.well_formed(),
        start_group(old(result).deep_view(), seg@) == Some(
            (final(result).deep_view(), pending.deep_view()),
        ),
{
    if seg.duration_ms() < MIN_SEGMENT_DURATION_MS {
        Some(seg.duplicate())
    } else {
        result.push(seg.duplicate());
        proof {
            assert(final(result).deep_view() =~= old(result).deep_view().push(seg@));
        }
        None
    }
}

/// Groups segments shorter than 2 s with the ones that follow, so that
/// speech synthesis never gets a fragment such as "Sim." on its own.
///
/// A short group takes the next segment when the silence between them is at
/// most 2 s (when the group is under 1 s) or 500 ms, unless the joined
/// translation would have to be spoken faster than 14 bytes per second. A
/// short group left at the end joins the previous segment when it follows it
/// within 500 ms.
///
/// `None` where a duration the grouping computes would be negative: a
/// segment that ends before it starts and is not absorbed into the pending
/// group, or one that ends before the pending group starts.
pub fn merge_short_segments(segments: &Vec<Segment>) -> (merged: Option<Vec<Segment>>)
    ensures
        merged.deep_view() == merged_segments(segments.deep_view()),
{
    let ghost input = segments.deep_view();
    let mut result: Vec<Segment> = Vec::new();
    let mut pending: Option<Segment> = None;
    let n = segments.len();
    let mut i: usize = 0;
    while i < n
        invariant
            n == segments.len(),
            input == segments.deep_view(),
            i <= n,
            merge_state(input.take(i as int)) == Some(
                (result.deep_view(), pending.deep_view()),
            ),
            pending matches Some(a) ==> a@.well_formed(),
        decreases n - i,
    {
        proof {
            assert(input.take(i as int + 1).drop_last() =~= input.take(i as int));
            if merge_state(input) is Some {
                lemma_merge_state_prefix_defined(input, i as int + 1);
            }
        }
        let seg = &segments[i];
        let prev = pending;
        pending = None;
        match prev {
            None => {
                if seg.end_ms < seg.start_ms {
                    return None;
                }
                pending = begin_group(&mut result, seg);
            },
            Some(acc) => {
                let gap = if seg.start_ms >= acc.end_ms {
                    seg.start_ms - acc.end_ms
                } else {
                    0
                };
                let max_gap: u64 = if acc.duration_ms() < 1000 {
                    2000
                } else {
                    500
                };
                if gap <= max_gap {
                    if seg.end_ms < acc.start_ms {
                        return None;
                    }
                    let merged_len: u128 = text_len(&acc.translated_text) as u128 + 1
                        + text_len(&seg.translated_text) as u128;
                    let merged_ms: u64 = seg.end_ms - acc.start_ms;
                    let fast = merged_ms > 0 && merged_len * 1000 > (MAX_MERGED_RATE as u128)
                        * (merged_ms as u128);
                    if fast {
                        if seg.end_ms < seg.start_ms {
                            return None;
                        }
                        result.push(acc);
                        pending = begin_group(&mut result, seg);
                    } else {
                        let joined = absorb_segment(&acc, seg);
                        if joined.duration_ms() < MIN_SEGMENT_DURATION_MS {
                            pending = Some(joined);
                        } else {
                            result.push(joined);
                        }
                    }
                } else {
                    if seg.end_ms < seg.start_ms {
                        return None;
                    }
                    result.push(acc);
                    pending = begin_group(&mut result, seg);
                }
            },
        }
        i = i + 1;
    }
    proof {
        assert(input.take(n as int) =~= input);
    }
    match pending {
        None => {},
        Some(acc) => {
            let len = result.len();
            if len > 0 && (if acc.start_ms >= result[len - 1].end_ms {
                acc.start_ms - result[len - 1].end_ms
            } else {
                0
            }) <= 500 {
                let last = absorb_segment(&result[len - 1], &acc);
                result.set(len - 1, last);
            } else {
                result.push(acc);
            }
        },
    }
    proof {
        assert(merged_segments(input) == Some(result.deep_view()));
    }
    Some(result)
}

/// A defined grouping is defined on every prefix.
proof fn lemma_merge_state_prefix_defined(segs: Seq<SegmentView>, k: int)
    requires
        0 <= k <= segs.len(),
        merge_state(segs) is Some,
    ensures
        merge_state(segs.take(k)) is Some,
    decreases segs.len(),
{
    if k < segs.len() {
        assert(segs.drop_last().take(k) =~= segs.take(k));
        lemma_merge_state_prefix_defined(segs.drop_last(), k);
    } else {
        assert(segs.take(k) =~= segs);
    }
}


/// Every segment is well formed and no segment starts before the previous one.
pub open spec fn is_timeline(segs: Seq<SegmentView>) -> bool {
    &&& forall|i: int| 0 <= i < segs.len() ==> #[trigger] segs[i].well_formed()
    &&& forall|i: int, j: int|
        0 <= i <= j < segs.len() ==> #[trigger] segs[i].start_ms <= #[trigger] segs[j].start_ms
}

/// The transcripts of all segments, in order, separated by single spaces.
pub open spec fn transcript(segs: Seq<SegmentView>) -> Seq<char>
    decreases segs.len(),
{
    if segs.len() == 0 {
        seq![]
    } else if segs.len() == 1 {
        segs[0].text
    } else {
        spaced(transcript(segs.drop_last()), segs.last().text)
    }
}

/// The translations of all segments, in order, separated by single spaces.
pub open spec fn translation(segs: Seq<SegmentView>) -> Seq<char>
    decreases segs.len(),
{
    if segs.len() == 0 {
        seq![]
    } else if segs.len() == 1 {
        segs[0].translated_text
    } else {
        spaced(translation(segs.drop_last()), segs.last().translated_text)
    }
}

/// The emitted segments followed by the pending group, if any.
pub open spec fn with_pending(result: Seq<SegmentView>, pending: Option<SegmentView>) -> Seq<
    SegmentView,
> {
    match pending {
        None => result,
        Some(a) => result.push(a),
    }
}

proof fn lemma_transcript_push_absorb(r: Seq<SegmentView>, a: SegmentView, s: SegmentView)
    ensures
        transcript(r.push(absorb(a, s))) == transcript(r.push(a).push(s)),
        translation(r.push(absorb(a, s))) == translation(r.push(a).push(s)),
{
    assert(r.push(absorb(a, s)).drop_last() =~= r);
    assert(r.push(a).push(s).drop_last() =~= r.push(a));
    assert(r.push(a).drop_last() =~= r);
    let m = absorb(a, s);
    if r.len() == 0 {
        assert(transcript(r.push(a)) == a.text);
        assert(translation(r.push(a)) == a.translated_text);
        assert(transcript(r.push(m)) == m.text);
        assert(translation(r.push(m)) == m.translated_text);
    } else {
        assert(transcript(r.push(m)) == spaced(transcript(r), m.text));
        assert(translation(r.push(m)) == spaced(translation(r), m.translated_text));
        assert(transcript(r.push(a)) == spaced(transcript(r), a.text));
        assert(translation(r.push(a)) == spaced(translation(r), a.translated_text));
        assert(spaced(transcript(r), spaced(a.text, s.text)) =~= spaced(
            spaced(transcript(r), a.text),
            s.text,
        ));
        assert(spaced(translation(r), spaced(a.translated_text, s.translated_text)) =~= spaced(
            spaced(translation(r), a.translated_text),
            s.translated_text,
        ));
    }
}

proof fn lemma_step_keeps_text(
    result: Seq<SegmentView>,
    pending: Option<SegmentView>,
    seg: SegmentView,
)
    requires
        merge_step(result, pending, seg) is Some,
    ensures
        ({
            let st = merge_step(result, pending, seg).unwrap();
            &&& transcript(with_pending(st.0, st.1)) == transcript(
                with_pending(result, pending).push(seg),
            )
            &&& translation(with_pending(st.0, st.1)) == translation(
                with_pending(result, pending).push(seg),
            )
        }),
{
    match pending {
        None => {},
        Some(acc) => {
            let max_gap: int = if acc.duration() < 1000 { 2000 } else { 500 };
            if gap_between(acc.end_ms, seg.start_ms) <= max_gap && !too_fast(acc, seg) {
                lemma_transcript_push_absorb(result, acc, seg);
            }
        },
    }
}

proof fn lemma_state_keeps_text(segs: Seq<SegmentView>)
    requires
        merge_state(segs) is Some,
    ensures
        ({
            let st = merge_state(segs).unwrap();
            &&& transcript(with_pending(st.0, st.1)) == transcript(segs)
            &&& translation(with_pending(st.0, st.1)) == translation(segs)
        }),
    decreases segs.len(),
{
    if segs.len() > 0 {
        let prefix = segs.drop_last();
        lemma_state_keeps_text(prefix);
        let st = merge_state(prefix).unwrap();
        lemma_step_keeps_text(st.0, st.1, segs.last());
        lemma_text_congruence(with_pending(st.0, st.1), prefix, segs.last());
        assert(prefix.push(segs.last()) =~= segs);
    }
}

proof fn lemma_text_congruence(a: Seq<SegmentView>, b: Seq<SegmentView>, s: SegmentView)
    requires
        transcript(a) == transcript(b),
        translation(a) == translation(b),
        a.len() == 0 <==> b.len() == 0,
    ensures
        transcript(a.push(s)) == transcript(b.push(s)),
        translation(a.push(s)) == translation(b.push(s)),
{
    assert(a.push(s).drop_last() =~= a);
    assert(b.push(s).drop_last() =~= b);
}

/// Grouping short segments loses, adds and reorders no words: the
/// transcripts of the result, read in order, are those of the input, and so
/// are the translations; there are never more segments than before.
pub proof fn lemma_merge_keeps_text(segs: Seq<SegmentView>)
    requires
        merged_segments(segs) is Some,
    ensures
        transcript(merged_segments(segs).unwrap()) == transcript(segs),
        translation(merged_segments(segs).unwrap()) == translation(segs),
        merged_segments(segs).unwrap().len() <= segs.len(),
{
    lemma_state_keeps_text(segs);
    lemma_state_len(segs);
    let st = merge_state(segs).unwrap();
    match st.1 {
        None => {},
        Some(acc) => {
            let r = st.0;
            if r.len() > 0 && gap_between(r.last().end_ms, acc.start_ms) <= 500 {
                let last = r.last();
                let init = r.drop_last();
                assert(r.update(r.len() - 1, absorb(last, acc)) =~= init.push(absorb(last, acc)));
                assert(init.push(last) =~= r);
                lemma_transcript_push_absorb(init, last, acc);
            }
        },
    }
}

proof fn lemma_state_len(segs: Seq<SegmentView>)
    requires
        merge_state(segs) is Some,
    ensures
        with_pending(merge_state(segs).unwrap().0, merge_state(segs).unwrap().1).len()
            <= segs.len(),
    decreases segs.len(),
{
    if segs.len() > 0 {
        lemma_state_len(segs.drop_last());
    }
}

/// On a timeline (well-formed segments in order of start) grouping is always
/// defined: no duration it computes is negative.
pub proof fn lemma_merge_defined_on_timeline(segs: Seq<SegmentView>)
    requires
        is_timeline(segs),
    ensures
        merged_segments(segs) is Some,
{
    lemma_state_defined(segs);
}

proof fn lemma_state_defined(segs: Seq<SegmentView>)
    requires
        is_timeline(segs),
    ensures
        merge_state(segs) is Some,
        segs.len() > 0 ==> (merge_state(segs).unwrap().1 matches Some(a) ==> a.well_formed()
            && a.start_ms <= segs.last().start_ms),
    decreases segs.len(),
{
    if segs.len() > 0 {
        let prefix = segs.drop_last();
        assert(is_timeline(prefix)) by {
            assert forall|i: int, j: int| 0 <= i <= j < prefix.len() implies #[trigger] prefix[i].start_ms
                <= #[trigger] prefix[j].start_ms by {
                assert(prefix[i] == segs[i] && prefix[j] == segs[j]);
            }
        }
        lemma_state_defined(prefix);
        assert(segs.last().well_formed());
        if prefix.len() > 0 {
            assert(prefix.last().start_ms <= segs.last().start_ms) by {
                assert(prefix.last() == segs[segs.len() - 2]);
            }
        }
    }
}

proof fn lemma_state_span(segs: Seq<SegmentView>)
    requires
        merge_state(segs) is Some,
        segs.len() > 0,
    ensures
        ({
            let st = merge_state(segs).unwrap();
            let w = with_pending(st.0, st.1);
            &&& w.len() > 0
            &&& w[0].start_ms == segs[0].start_ms
            &&& w.last().end_ms == segs.last().end_ms
            &&& st.0.len() > 0 ==> st.0[0].start_ms == segs[0].start_ms
        }),
    decreases segs.len(),
{
    let prefix = segs.drop_last();
    let seg = segs.last();
    if prefix.len() > 0 {
        lemma_state_span(prefix);
        assert(prefix[0] == segs[0]);
    }
    let st = merge_state(prefix).unwrap();
    match st.1 {
        None => {},
        Some(acc) => {
            assert(with_pending(st.0, st.1) == st.0.push(acc));
        },
    }
}

/// Grouping keeps the extent of the speech: the first segment starts where
/// the first input segment starts and the last ends where the last input
/// segment ends.
pub proof fn lemma_merge_keeps_span(segs: Seq<SegmentView>)
    requires
        merged_segments(segs) is Some,
        segs.len() > 0,
    ensures
        merged_segments(segs).unwrap().len() > 0,
        merged_segments(segs).unwrap()[0].start_ms == segs[0].start_ms,
        merged_segments(segs).unwrap().last().end_ms == segs.last().end_ms,
{
    lemma_state_span(segs);
}

proof fn lemma_timeline_push(w: Seq<SegmentView>, s: SegmentView)
    requires
        is_timeline(w),
        s.well_formed(),
        w.len() > 0 ==> w.last().start_ms <= s.start_ms,
    ensures
        is_timeline(w.push(s)),
{
    let w2 = w.push(s);
    assert forall|i: int, j: int| 0 <= i <= j < w2.len() implies #[trigger] w2[i].start_ms
        <= #[trigger] w2[j].start_ms by {
        if j == w.len() && i < w.len() {
            assert(w[i].start_ms <= w[w.len() - 1].start_ms);
        }
    }
}

proof fn lemma_state_timeline(segs: Seq<SegmentView>)
    requires
        is_timeline(segs),
    ensures
        merge_state(segs) is Some,
        is_timeline(with_pending(merge_state(segs).unwrap().0, merge_state(segs).unwrap().1)),
        segs.len() > 0 ==> with_pending(merge_state(segs).unwrap().0, merge_state(segs).unwrap().1).last().start_ms
            <= segs.last().start_ms,
    decreases segs.len(),
{
    lemma_state_defined(segs);
    if segs.len() > 0 {
        let prefix = segs.drop_last();
        let seg = segs.last();
        assert(is_timeline(prefix)) by {
            assert forall|i: int, j: int| 0 <= i <= j < prefix.len() implies #[trigger] prefix[i].start_ms
                <= #[trigger] prefix[j].start_ms by {
                assert(prefix[i] == segs[i] && prefix[j] == segs[j]);
            }
        }
        lemma_state_timeline(prefix);
        lemma_state_defined(prefix);
        let st = merge_state(prefix).unwrap();
        let r = st.0;
        let w = with_pending(r, st.1);
        assert(seg.well_formed());
        if prefix.len() > 0 {
            assert(prefix.last() == segs[segs.len() - 2]);
            assert(prefix.last().start_ms <= seg.start_ms);
        }
        match st.1 {
            None => {
                lemma_timeline_push(w, seg);
            },
            Some(acc) => {
                assert(w == r.push(acc));
                assert(w.last() == acc);
                let max_gap: int = if acc.duration() < 1000 { 2000 } else { 500 };
                if gap_between(acc.end_ms, seg.start_ms) <= max_gap && !too_fast(acc, seg) {
                    assert(r =~= w.drop_last());
                    assert(is_timeline(r)) by {
                        assert forall|i: int, j: int| 0 <= i <= j < r.len() implies #[trigger] r[i].start_ms
                            <= #[trigger] r[j].start_ms by {
                            assert(r[i] == w[i] && r[j] == w[j]);
                        }
                    }
                    if r.len() > 0 {
                        assert(r.last().start_ms <= acc.start_ms) by {
                            assert(r.last() == w[r.len() - 1]);
                        }
                    }
                    lemma_timeline_push(r, absorb(acc, seg));
                } else {
                    lemma_timeline_push(w, seg);
                }
            },
        }
    }
}

/// Grouping a timeline gives a timeline: every grouped segment is well
/// formed and they stay in order of start.
pub proof fn lemma_merge_keeps_timeline(segs: Seq<SegmentView>)
    requires
        is_timeline(segs),
    ensures
        merged_segments(segs) is Some,
        is_timeline(merged_segments(segs).unwrap()),
{
    lemma_state_timeline(segs);
    let st = merge_state(segs).unwrap();
    let r = st.0;
    match st.1 {
        None => {},
        Some(acc) => {
            let w = r.push(acc);
            assert(w == with_pending(r, st.1));
            assert(r =~= w.drop_last());
            assert(is_timeline(r)) by {
                assert forall|i: int, j: int| 0 <= i <= j < r.len() implies #[trigger] r[i].start_ms
                    <= #[trigger] r[j].start_ms by {
                    assert(r[i] == w[i] && r[j] == w[j]);
                }
            }
            if r.len() > 0 && gap_between(r.last().end_ms, acc.start_ms) <= 500 {
                let last = r.last();
                let out = r.update(r.len() - 1, absorb(last, acc));
                assert(last == w[r.len() - 1]);
                assert(last.start_ms <= acc.start_ms);
                assert(is_timeline(out)) by {
                    assert forall|i: int| 0 <= i < out.len() implies #[trigger] out[i].well_formed() by {
                        if i < r.len() - 1 {
                            assert(out[i] == r[i]);
                        }
                    }
                    assert forall|i: int, j: int| 0 <= i <= j < out.len() implies #[trigger] out[i].start_ms
                        <= #[trigger] out[j].start_ms by {
                        assert(out[i].start_ms == r[i].start_ms && out[j].start_ms == r[j].start_ms);
                    }
                }
            }
        },
    }
}

proof fn lemma_no_overlaps_push(w: Seq<SegmentView>, x: SegmentView)
    requires
        no_overlaps(w),
        w.len() > 0 ==> w.last().end_ms <= x.start_ms,
    ensures
        no_overlaps(w.push(x)),
{
    let w2 = w.push(x);
    assert forall|i: int| 0 <= i < w2.len() - 1 implies #[trigger] w2[i].end_ms
        <= w2[i + 1].start_ms by {
        assert(w2[i] == w[i]);
        if i < w.len() - 1 {
            assert(w2[i + 1] == w[i + 1]);
        }
    }
}

proof fn lemma_no_overlaps_init(w: Seq<SegmentView>)
    requires
        no_overlaps(w),
        w.len() > 0,
    ensures
        no_overlaps(w.drop_last()),
        w.len() > 1 ==> w.drop_last().last().end_ms <= w.last().start_ms,
{
    let v = w.drop_last();
    assert forall|i: int| 0 <= i < v.len() - 1 implies #[trigger] v[i].end_ms
        <= v[i + 1].start_ms by {
        assert(w[i].end_ms <= w[i + 1].start_ms);
    }
    if w.len() > 1 {
        assert(w[w.len() - 2].end_ms <= w[w.len() - 1].start_ms);
    }
}

proof fn lemma_state_no_overlaps(segs: Seq<SegmentView>)
    requires
        is_timeline(segs),
        no_overlaps(segs),
    ensures
        merge_state(segs) is Some,
        no_overlaps(with_pending(merge_state(segs).unwrap().0, merge_state(segs).unwrap().1)),
    decreases segs.len(),
{
    lemma_state_defined(segs);
    if segs.len() > 0 {
        let prefix = segs.drop_last();
        let seg = segs.last();
        assert(is_timeline(prefix)) by {
            assert forall|i: int| 0 <= i < prefix.len() implies #[trigger] prefix[i].well_formed() by {
                assert(prefix[i] == segs[i]);
            }
            assert forall|i: int, j: int| 0 <= i <= j < prefix.len() implies #[trigger] prefix[i].start_ms
                <= #[trigger] prefix[j].start_ms by {
                assert(prefix[i] == segs[i] && prefix[j] == segs[j]);
            }
        }
        lemma_no_overlaps_init(segs);
        lemma_state_no_overlaps(prefix);
        lemma_state_defined(prefix);
        let st = merge_state(prefix).unwrap();
        let r = st.0;
        let w = with_pending(r, st.1);
        if prefix.len() > 0 {
            lemma_state_span(prefix);
            assert(w.last().end_ms <= seg.start_ms);
        } else {
            assert(w.len() == 0);
        }
        match st.1 {
            None => {
                lemma_no_overlaps_push(w, seg);
            },
            Some(acc) => {
                assert(w == r.push(acc));
                assert(r =~= w.drop_last());
                lemma_no_overlaps_init(w);
                lemma_no_overlaps_push(w, seg);
                let max_gap: int = if acc.duration() < 1000 { 2000 } else { 500 };
                if gap_between(acc.end_ms, seg.start_ms) <= max_gap && !too_fast(acc, seg) {
                    if r.len() > 0 {
                        assert(w.drop_last().last().end_ms <= w.last().start_ms);
                    }
                    lemma_no_overlaps_push(r, absorb(acc, seg));
                }
            },
        }
    }
}

/// Grouping a timeline without overlaps gives a timeline without overlaps:
/// a group spans from the start of its first segment to the end of its
/// last, so it never reaches into the next group.
pub proof fn lemma_merge_keeps_no_overlaps(segs: Seq<SegmentView>)
    requires
        is_timeline(segs),
        no_overlaps(segs),
    ensures
        merged_segments(segs) is Some,
        no_overlaps(merged_segments(segs).unwrap()),
{
    lemma_state_no_overlaps(segs);
    let st = merge_state(segs).unwrap();
    let r = st.0;
    match st.1 {
        None => {},
        Some(acc) => {
            let w = r.push(acc);
            assert(w == with_pending(r, st.1));
            assert(r =~= w.drop_last());
            lemma_no_overlaps_init(w);
            if r.len() > 0 && gap_between(r.last().end_ms, acc.start_ms) <= 500 {
                let last = r.last();
                let init = r.drop_last();
                lemma_no_overlaps_init(r);
                assert(r.update(r.len() - 1, absorb(last, acc)) =~= init.push(absorb(last, acc)));
                lemma_no_overlaps_push(init, absorb(last, acc));
            }
        },
    }
}

/// `x` begins as `g` does: same start, and the texts and translation of
/// `g` are prefixes of those of `x`.
pub open spec fn extends(x: SegmentView, g: SegmentView) -> bool {
    &&& x.start_ms == g.start_ms
    &&& g.text.is_prefix_of(x.text)
    &&& g.translated_text.is_prefix_of(x.translated_text)
}

/// The first segment of the grouping, emitted or still pending, extends `g`.
spec fn leads_with(st: (Seq<SegmentView>, Option<SegmentView>), g: SegmentView) -> bool {
    ||| st.0.len() == 0 && (st.1 matches Some(p) && extends(p, g))
    ||| st.0.len() > 0 && extends(st.0[0], g)
}

proof fn lemma_prefix_spaced(g: Seq<char>, x: Seq<char>, y: Seq<char>)
    requires
        g.is_prefix_of(x),
    ensures
        g.is_prefix_of(spaced(x, y)),
{
    assert(g =~= spaced(x, y).subrange(0, g.len() as int)) by {
        assert forall|i: int| 0 <= i < g.len() implies g[i] == spaced(x, y).subrange(
            0,
            g.len() as int,
        )[i] by {
            assert(g[i] == x.subrange(0, g.len() as int)[i]);
        }
    }
}

proof fn lemma_extends_absorb(x: SegmentView, g: SegmentView, s: SegmentView)
    requires
        extends(x, g),
    ensures
        extends(absorb(x, s), g),
{
    lemma_prefix_spaced(g.text, x.text, s.text);
    lemma_prefix_spaced(g.translated_text, x.translated_text, s.translated_text);
}

proof fn lemma_extends_self(g: SegmentView)
    ensures
        extends(g, g),
{
    assert(g.text =~= g.text.subrange(0, g.text.len() as int));
    assert(g.translated_text =~= g.translated_text.subrange(0, g.translated_text.len() as int));
}

proof fn lemma_step_keeps_emitted(
    result: Seq<SegmentView>,
    pending: Option<SegmentView>,
    seg: SegmentView,
)
    requires
        merge_step(result, pending, seg) is Some,
    ensures
        result.len() <= merge_step(result, pending, seg).unwrap().0.len(),
        forall|i: int|
            0 <= i < result.len() ==> #[trigger] merge_step(result, pending, seg).unwrap().0[i]
                == result[i],
{
}

proof fn lemma_step_leads(
    result: Seq<SegmentView>,
    pending: Option<SegmentView>,
    seg: SegmentView,
    g: SegmentView,
)
    requires
        merge_step(result, pending, seg) is Some,
        leads_with((result, pending), g),
    ensures
        leads_with(merge_step(result, pending, seg).unwrap(), g),
{
    lemma_step_keeps_emitted(result, pending, seg);
    let st = merge_step(result, pending, seg).unwrap();
    if result.len() > 0 {
        assert(st.0[0] == result[0]);
    } else {
        let acc = pending->0;
        let max_gap: int = if acc.duration() < 1000 { 2000 } else { 500 };
        if gap_between(acc.end_ms, seg.start_ms) <= max_gap && !too_fast(acc, seg) {
            lemma_extends_absorb(acc, g, seg);
        } else {
            assert(st.0[0] == acc);
        }
    }
}

proof fn lemma_chain_leads(segs: Seq<SegmentView>, k: int, g: SegmentView)
    requires
        0 <= k <= segs.len(),
        merge_state(segs) is Some,
        merge_state(segs.take(k)) is Some,
        leads_with(merge_state(segs.take(k)).unwrap(), g),
    ensures
        leads_with(merge_state(segs).unwrap(), g),
    decreases segs.len() - k,
{
    if k == segs.len() {
        assert(segs.take(k) =~= segs);
    } else {
        lemma_merge_state_prefix_defined(segs, k + 1);
        assert(segs.take(k + 1).drop_last() =~= segs.take(k));
        assert(segs.take(k + 1).last() == segs[k]);
        let st = merge_state(segs.take(k)).unwrap();
        lemma_step_leads(st.0, st.1, segs[k], g);
        lemma_chain_leads(segs, k + 1, g);
    }
}

proof fn lemma_chain_keeps_emitted(segs: Seq<SegmentView>, k: int)
    requires
        0 <= k <= segs.len(),
        merge_state(segs) is Some,
        merge_state(segs.take(k)) is Some,
    ensures
        merge_state(segs.take(k)).unwrap().0.len() <= merge_state(segs).unwrap().0.len(),
        forall|i: int|
            0 <= i < merge_state(segs.take(k)).unwrap().0.len() ==> #[trigger] merge_state(
                segs,
            ).unwrap().0[i] == merge_state(segs.take(k)).unwrap().0[i],
    decreases segs.len() - k,
{
    if k == segs.len() {
        assert(segs.take(k) =~= segs);
    } else {
        lemma_merge_state_prefix_defined(segs, k + 1);
        assert(segs.take(k + 1).drop_last() =~= segs.take(k));
        assert(segs.take(k + 1).last() == segs[k]);
        let st = merge_state(segs.take(k)).unwrap();
        lemma_step_keeps_emitted(st.0, st.1, segs[k]);
        lemma_chain_keeps_emitted(segs, k + 1);
    }
}

proof fn lemma_flush_leads(result: Seq<SegmentView>, pending: Option<SegmentView>, g: SegmentView)
    requires
        leads_with((result, pending), g),
    ensures
        merge_flush(result, pending).len() > 0,
        extends(merge_flush(result, pending)[0], g),
{
    match pending {
        None => {},
        Some(acc) => {
            if result.len() > 0 && gap_between(result.last().end_ms, acc.start_ms) <= 500 {
                if result.len() == 1 {
                    lemma_extends_absorb(result[0], g, acc);
                }
            }
        },
    }
}

/// The state after the first two segments when the first is short and
/// takes the second.
proof fn lemma_first_two_states(segs: Seq<SegmentView>)
    requires
        segs.len() >= 2,
        merge_state(segs) is Some,
    ensures
        merge_state(segs.take(1)) == merge_step(seq![], None, segs[0]),
        merge_state(segs.take(2)) is Some,
        merge_state(segs.take(2)) == merge_step(
            merge_state(segs.take(1)).unwrap().0,
            merge_state(segs.take(1)).unwrap().1,
            segs[1],
        ),
{
    lemma_merge_state_prefix_defined(segs, 1);
    lemma_merge_state_prefix_defined(segs, 2);
    let none = Seq::<SegmentView>::empty();
    assert(segs.take(1).drop_last() =~= none);
    assert(merge_state(none) == Some((none, Option::<SegmentView>::None)));
    assert(segs.take(1).last() == segs[0]);
    assert(merge_state(segs.take(1)) == merge_step(none, None, segs[0]));
    assert(segs.take(2).drop_last() =~= segs.take(1));
    assert(segs.take(2).last() == segs[1]);
}

/// A short first segment is not joined with the next one when the next
/// starts more than the allowed gap after it (2 s after a segment under
/// 1 s, 500 ms otherwise), or when the joined translation (both
/// translations and a space) would be read faster than 14 bytes per second
/// over the joined span: when the second lasts 2 s or more, the grouping
/// starts with the first segment unchanged.
pub proof fn lemma_merge_refuses_too_fast_join(segs: Seq<SegmentView>)
    requires
        segs.len() >= 2,
        merged_segments(segs) is Some,
        segs[0].start_ms <= segs[0].end_ms,
        segs[1].start_ms <= segs[1].end_ms,
        segs[0].end_ms - segs[0].start_ms < 2000,
        segs[1].end_ms - segs[1].start_ms >= 2000,
        segs[1].start_ms - segs[0].end_ms > (if segs[0].end_ms - segs[0].start_ms < 1000 {
            2000int
        } else {
            500int
        }) || (segs[1].end_ms > segs[0].start_ms && (str_len(segs[0].translated_text) + 1
            + str_len(segs[1].translated_text)) * 1000 > 14 * (segs[1].end_ms
            - segs[0].start_ms)),
    ensures
        merged_segments(segs).unwrap().len() >= 2,
        merged_segments(segs).unwrap()[0] == segs[0],
{
    lemma_first_two_states(segs);
    let st2 = merge_state(segs.take(2)).unwrap();
    assert(st2.0 =~= seq![segs[0], segs[1]]);
    lemma_chain_keeps_emitted(segs, 2);
    let st = merge_state(segs).unwrap();
    assert(st.0[0] == segs[0]);
    assert(st.0[1] == segs[1]);
}

/// A short first segment that the next one follows within the allowed gap
/// is joined with it whenever the joined translation (both translations
/// and a space) is read at no more than 14 bytes per second over the joined
/// span: the first segment of the grouping starts where the first input
/// segment starts and begins with both transcripts, and both translations,
/// joined by a space.
pub proof fn lemma_merge_joins_readable_pair(segs: Seq<SegmentView>)
    requires
        segs.len() >= 2,
        merged_segments(segs) is Some,
        segs[0].start_ms <= segs[0].end_ms,
        segs[0].end_ms - segs[0].start_ms < 2000,
        segs[1].start_ms - segs[0].end_ms <= (if segs[0].end_ms - segs[0].start_ms < 1000 {
            2000int
        } else {
            500int
        }),
        segs[1].end_ms >= segs[0].start_ms,
        (str_len(segs[0].translated_text) + 1 + str_len(segs[1].translated_text)) * 1000 <= 14 * (
        segs[1].end_ms - segs[0].start_ms),
    ensures
        merged_segments(segs).unwrap().len() > 0,
        merged_segments(segs).unwrap()[0].start_ms == segs[0].start_ms,
        spaced(segs[0].text, segs[1].text).is_prefix_of(merged_segments(segs).unwrap()[0].text),
        spaced(segs[0].translated_text, segs[1].translated_text).is_prefix_of(
            merged_segments(segs).unwrap()[0].translated_text,
        ),
{
    lemma_first_two_states(segs);
    let g = absorb(segs[0], segs[1]);
    lemma_extends_self(g);
    let st2 = merge_state(segs.take(2)).unwrap();
    assert(leads_with(st2, g));
    lemma_chain_leads(segs, 2, g);
    let st = merge_state(segs).unwrap();
    lemma_flush_leads(st.0, st.1, g);
}

/// A joined group that still lasts under 2 s keeps taking segments: when
/// the first two segments are joined (as above) into a group shorter than
/// 2 s, and the third follows the group within the allowed gap and the
/// group's translation joined with the third's is read at no more than 14
/// bytes per second over the span from the group's start to the third's
/// end, the first segment of the grouping begins with all three
/// transcripts, and all three translations, joined by spaces.
pub proof fn lemma_merge_keeps_short_group_open(segs: Seq<SegmentView>)
    requires
        segs.len() >= 3,
        merged_segments(segs) is Some,
        segs[0].start_ms <= segs[0].end_ms,
        segs[0].end_ms - segs[0].start_ms < 2000,
        segs[1].start_ms - segs[0].end_ms <= (if segs[0].end_ms - segs[0].start_ms < 1000 {
            2000int
        } else {
            500int
        }),
        segs[1].end_ms >= segs[0].start_ms,
        (str_len(segs[0].translated_text) + 1 + str_len(segs[1].translated_text)) * 1000 <= 14 * (
        segs[1].end_ms - segs[0].start_ms),
        segs[1].end_ms - segs[0].start_ms < 2000,
        segs[2].start_ms - segs[1].end_ms <= (if segs[1].end_ms - segs[0].start_ms < 1000 {
            2000int
        } else {
            500int
        }),
        segs[2].end_ms >= segs[0].start_ms,
        (str_len(spaced(segs[0].translated_text, segs[1].translated_text)) + 1 + str_len(
            segs[2].translated_text,
        )) * 1000 <= 14 * (segs[2].end_ms - segs[0].start_ms),
    ensures
        merged_segments(segs).unwrap().len() > 0,
        merged_segments(segs).unwrap()[0].start_ms == segs[0].start_ms,
        spaced(spaced(segs[0].text, segs[1].text), segs[2].text).is_prefix_of(
            merged_segments(segs).unwrap()[0].text,
        ),
        spaced(
            spaced(segs[0].translated_text, segs[1].translated_text),
            segs[2].translated_text,
        ).is_prefix_of(merged_segments(segs).unwrap()[0].translated_text),
{
    lemma_first_two_states(segs);
    lemma_merge_state_prefix_defined(segs, 3);
    assert(segs.take(3).drop_last() =~= segs.take(2));
    assert(segs.take(3).last() == segs[2]);
    let g = absorb(absorb(segs[0], segs[1]), segs[2]);
    lemma_extends_self(g);
    let st2 = merge_state(segs.take(2)).unwrap();
    assert(st2 == (Seq::<SegmentView>::empty(), Some(absorb(segs[0], segs[1]))));
    let st3 = merge_state(segs.take(3)).unwrap();
    assert(leads_with(st3, g));
    lemma_chain_leads(segs, 3, g);
    let st = merge_state(segs).unwrap();
    lemma_flush_leads(st.0, st.1, g);
}

/// After a segment of 2 s or more, on a timeline, nothing is pending and the
/// last emitted segment ends with it and starts no later than it.
proof fn lemma_state_after_long(segs: Seq<SegmentView>)
    requires
        is_timeline(segs),
        segs.len() > 0,
        !is_short(segs.last()),
    ensures
        merge_state(segs) is Some,
        merge_state(segs).unwrap().1 is None,
        merge_state(segs).unwrap().0.len() > 0,
        merge_state(segs).unwrap().0.last().end_ms == segs.last().end_ms,
        merge_state(segs).unwrap().0.last().start_ms <= segs.last().start_ms,
{
    lemma_state_defined(segs);
    let prefix = segs.drop_last();
    let p = segs.last();
    assert(p == segs[segs.len() - 1]);
    assert(p.well_formed());
    assert(is_timeline(prefix)) by {
        assert forall|i: int| 0 <= i < prefix.len() implies #[trigger] prefix[i].well_formed() by {
            assert(prefix[i] == segs[i]);
        }
        assert forall|i: int, j: int| 0 <= i <= j < prefix.len() implies #[trigger] prefix[i].start_ms
            <= #[trigger] prefix[j].start_ms by {
            assert(prefix[i] == segs[i] && prefix[j] == segs[j]);
        }
    }
    lemma_state_defined(prefix);
    if prefix.len() > 0 {
        assert(prefix.last() == segs[segs.len() - 2]);
        assert(prefix.last().start_ms <= p.start_ms);
    }
}

/// A segment shorter than 2 s at the end, after one of 2 s or more, on a
/// timeline: when it starts within 500 ms of the end of that segment it is
/// joined to the last segment of the grouping, which then starts no later
/// than that segment; otherwise it stays alone as the last segment.
pub proof fn lemma_merge_short_tail(segs: Seq<SegmentView>)
    requires
        segs.len() >= 2,
        is_timeline(segs),
        segs[segs.len() - 2].end_ms - segs[segs.len() - 2].start_ms >= 2000,
        segs[segs.len() - 1].end_ms - segs[segs.len() - 1].start_ms < 2000,
    ensures
        merged_segments(segs) is Some,
        merged_segments(segs).unwrap().len() > 0,
        segs[segs.len() - 1].start_ms <= segs[segs.len() - 2].end_ms + 500 ==> merged_segments(
            segs,
        ).unwrap().last().start_ms <= segs[segs.len() - 2].start_ms,
        segs[segs.len() - 1].start_ms > segs[segs.len() - 2].end_ms + 500 ==> merged_segments(
            segs,
        ).unwrap().last() == segs[segs.len() - 1],
{
    let n = segs.len();
    let prefix = segs.drop_last();
    assert(is_timeline(prefix)) by {
        assert forall|i: int| 0 <= i < prefix.len() implies #[trigger] prefix[i].well_formed() by {
            assert(prefix[i] == segs[i]);
        }
        assert forall|i: int, j: int| 0 <= i <= j < prefix.len() implies #[trigger] prefix[i].start_ms
            <= #[trigger] prefix[j].start_ms by {
            assert(prefix[i] == segs[i] && prefix[j] == segs[j]);
        }
    }
    assert(prefix.last() == segs[n - 2]);
    lemma_state_after_long(prefix);
    lemma_merge_defined_on_timeline(segs);
    let t = segs.last();
    assert(t == segs[n - 1]);
    assert(t.well_formed());
    let r = merge_state(prefix).unwrap().0;
    assert(merge_state(segs) == Some((r, Some(t))));
}

/// A first segment of 2 s or more is not grouped with a next one of 2 s or
/// more: the grouping starts with it unchanged.
pub proof fn lemma_merge_keeps_long_first(segs: Seq<SegmentView>)
    requires
        segs.len() >= 2,
        merged_segments(segs) is Some,
        segs[0].start_ms <= segs[0].end_ms,
        segs[1].start_ms <= segs[1].end_ms,
        segs[0].end_ms - segs[0].start_ms >= 2000,
        segs[1].end_ms - segs[1].start_ms >= 2000,
    ensures
        merged_segments(segs).unwrap().len() >= 2,
        merged_segments(segs).unwrap()[0] == segs[0],
{
    lemma_first_two_states(segs);
    let st2 = merge_state(segs.take(2)).unwrap();
    assert(st2.0 =~= seq![segs[0], segs[1]]);
    lemma_chain_keeps_emitted(segs, 2);
    let st = merge_state(segs).unwrap();
    assert(st.0[0] == segs[0]);
    assert(st.0[1] == segs[1]);
}
} // verus!
