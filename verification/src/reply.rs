//! Reading the replies of the chat-completion API: the message content, the
//! segments of a transcription and of a translation.
use vstd::prelude::*;
use crate::segment::{Segment, SegmentView};
use crate::text::{trim, trimmed};
use crate::json::{Json, JsonView, json_view, parsed_json, parse_json, json_field, json_index, json_str_field, json_u64_field, field, index, str_field, u64_field};

verus! {

/// One element of the `segments` array of a model reply, each field as the
/// reply gives it (`None` where it is missing or of another JSON type).
pub struct RawItem {
    pub start_ms: Option<u64>,
    pub end_ms: Option<u64>,
    pub text: Option<String>,
    pub translated: Option<String>,
}

/// The mathematical value of a [`RawItem`].
pub struct RawItemView {
    pub start_ms: Option<u64>,
    pub end_ms: Option<u64>,
    pub text: Option<Seq<char>>,
    pub translated: Option<Seq<char>>,
}

impl View for RawItem {
    type V = RawItemView;

    open spec fn view(&self) -> RawItemView {
        RawItemView {
            start_ms: self.start_ms,
            end_ms: self.end_ms,
            text: match self.text {
                Some(t) => Some(t@),
                None => None,
            },
            translated: match self.translated {
                Some(t) => Some(t@),
                None => None,
            },
        }
    }
}

impl DeepView for RawItem {
    type V = RawItemView;

    open spec fn deep_view(&self) -> RawItemView {
        self@
    }
}

/// Why a model reply could not be read.
#[derive(Debug, Clone, Copy, PartialEq, Eq)]
pub enum ReplyError {
    /// The HTTP body is not JSON.
    MalformedResponse,
    /// The body has no string at `choices[0].message.content`.
    MissingContent,
    /// The message content is not JSON.
    MalformedContent,
    /// The message content has no `segments` array.
    MissingSegments,
    /// A timestamp plus the chunk offset does not fit in `u64`.
    TimestampOverflow,
}

/// The message of the first choice of a chat-completion reply:
/// `choices[0].message.content`, when it is a string.
pub open spec fn choice_content(root: JsonView) -> Option<Seq<char>> {
    match json_field(root, "choices"@) {
        Some(choices) => match json_index(choices, 0) {
            Some(first) => match json_field(first, "message"@) {
                Some(message) => json_str_field(message, "content"@),
                None => None,
            },
            None => None,
        },
        None => None,
    }
}

/// The message content of a chat-completion reply body, or why there is
/// none.
pub open spec fn content_of(response: Seq<char>) -> Result<Seq<char>, ReplyError> {
    match parsed_json(response) {
        None => Err(ReplyError::MalformedResponse),
        Some(root) => match choice_content(root) {
            Some(c) => Ok(c),
            None => Err(ReplyError::MissingContent),
        },
    }
}

/// The value of a string result.
pub open spec fn string_result(r: Result<String, ReplyError>) -> Result<Seq<char>, ReplyError> {
    match r {
        Ok(s) => Ok(s@),
        Err(e) => Err(e),
    }
}

/// The value of a segment-list result.
pub open spec fn segments_result(r: Result<Vec<Segment>, ReplyError>) -> Result<
    Seq<SegmentView>,
    ReplyError,
> {
    match r {
        Ok(v) => Ok(v.deep_view()),
        Err(e) => Err(e),
    }
}

fn first_choice_content(root: &Json) -> (r: Option<String>)
    ensures
        match r {
            Some(c) => choice_content(json_view(*root)) == Some(c@),
            None => choice_content(json_view(*root)) is None,
        },
{
    let choices = match field(root, "choices") {
        Some(c) => c,
        None => return None,
    };
    let first = match index(choices, 0) {
        Some(f) => f,
        None => return None,
    };
    let message = match field(first, "message") {
        Some(m) => m,
        None => return None,
    };
    str_field(message, "content")
}

/// The generated message of a chat-completion reply body.
pub fn chat_content(response: &str) -> (r: Result<String, ReplyError>)
    ensures
        string_result(r) == content_of(response@),
{
    match parse_json(response) {
        None => Err(ReplyError::MalformedResponse),
        Some(root) => match first_choice_content(&root) {
            Some(c) => Ok(c),
            None => Err(ReplyError::MissingContent),
        },
    }
}

/// The message of a re-translation reply, without surrounding whitespace.
pub fn retranslation_reply(response: &str) -> (r: Result<String, ReplyError>)
    ensures
        string_result(r) == match content_of(response@) {
            Ok(c) => Ok(trimmed(c)),
            Err(e) => Err(e),
        },
{
    match chat_content(response) {
        Ok(c) => Ok(trim(c.as_str())),
        Err(e) => Err(e),
    }
}

/// One element of a `segments` array, each field read as serde_json's
/// `as_u64` or `as_str` reads it.
pub open spec fn item_view(v: JsonView) -> RawItemView {
    RawItemView {
        start_ms: json_u64_field(v, "start_ms"@),
        end_ms: json_u64_field(v, "end_ms"@),
        text: json_str_field(v, "text"@),
        translated: json_str_field(v, "translated"@),
    }
}

/// The elements of the `segments` array of a reply, `None` when there is no
/// such array.
pub open spec fn segment_items(root: JsonView) -> Option<Seq<RawItemView>> {
    match json_field(root, "segments"@) {
        Some(JsonView::Array(a)) => Some(a.map_values(|v: JsonView| item_view(v))),
        _ => None,
    }
}

fn item_of(v: &Json) -> (r: RawItem)
    ensures
        r@ == item_view(json_view(*v)),
{
    RawItem {
        start_ms: u64_field(v, "start_ms"),
        end_ms: u64_field(v, "end_ms"),
        text: str_field(v, "text"),
        translated: str_field(v, "translated"),
    }
}

fn items_of(root: &Json) -> (r: Option<Vec<RawItem>>)
    ensures
        r.deep_view() == segment_items(json_view(*root)),
{
    let arr = match field(root, "segments") {
        Some(Json::Array(a)) => a,
        _ => return None,
    };
    let ghost av = match json_field(json_view(*root), "segments"@) {
        Some(JsonView::Array(x)) => x,
        _ => seq![],
    };
    proof {
        assert(json_view(Json::Array(*arr)) == JsonView::Array(av));
    }
    let mut items: Vec<RawItem> = Vec::new();
    let mut i: usize = 0;
    while i < arr.len()
        invariant
            i <= arr@.len(),
            json_view(Json::Array(*arr)) == JsonView::Array(av),
            segment_items(json_view(*root)) == Some(av.map_values(|v: JsonView| item_view(v))),
            items.deep_view() =~= av.map_values(|v: JsonView| item_view(v)).take(i as int),
        decreases arr@.len() - i,
    {
        proof {
            assert(av[i as int] == json_view(arr@[i as int]));
        }
        let it = item_of(&arr[i]);
        let ghost before = items.deep_view();
        items.push(it);
        proof {
            assert(items.deep_view() =~= before.push(it@));
            assert(av.map_values(|v: JsonView| item_view(v)).take(i as int + 1) =~= av.map_values(
                |v: JsonView| item_view(v),
            ).take(i as int).push(item_view(av[i as int])));
        }
        i = i + 1;
    }
    proof {
        assert(av.map_values(|v: JsonView| item_view(v)).take(arr@.len() as int) =~= av.map_values(
            |v: JsonView| item_view(v),
        ));
    }
    Some(items)
}

/// The value of an optional timestamp, zero when missing.
pub open spec fn or_zero(v: Option<u64>) -> u64 {
    match v {
        Some(x) => x,
        None => 0,
    }
}

/// The value of an optional text, empty when missing.
pub open spec fn or_empty(t: Option<Seq<char>>) -> Seq<char> {
    match t {
        Some(x) => x,
        None => seq![],
    }
}

/// The segment that a transcription item describes, moved by `offset_ms`.
pub open spec fn item_segment(it: RawItemView, offset_ms: u64) -> SegmentView {
    SegmentView {
        start_ms: (or_zero(it.start_ms) + offset_ms) as u64,
        end_ms: (or_zero(it.end_ms) + offset_ms) as u64,
        text: or_empty(it.text),
        translated_text: seq![],
    }
}

/// A transcription item is kept when it has text and a positive duration.
pub open spec fn keeps_item(it: RawItemView, offset_ms: u64) -> bool {
    let s = item_segment(it, offset_ms);
    s.text.len() > 0 && s.end_ms > s.start_ms
}

/// The segments that transcription items describe, in order, without those
/// that have no text or no duration.
pub open spec fn transcribed(items: Seq<RawItemView>, offset_ms: u64) -> Seq<SegmentView>
    decreases items.len(),
{
    if items.len() == 0 {
        seq![]
    } else {
        let prev = transcribed(items.drop_last(), offset_ms);
        if keeps_item(items.last(), offset_ms) {
            prev.push(item_segment(items.last(), offset_ms))
        } else {
            prev
        }
    }
}

/// Every segment read from a transcription has text and ends after it
/// starts, and none starts before the chunk's offset.
pub proof fn lemma_transcribed_segments_are_spoken(items: Seq<RawItemView>, offset_ms: u64)
    requires
        offsets_fit(items, offset_ms),
    ensures
        forall|i: int|
            0 <= i < transcribed(items, offset_ms).len() ==> {
                let s = #[trigger] transcribed(items, offset_ms)[i];
                &&& s.text.len() > 0
                &&& s.start_ms < s.end_ms
                &&& s.start_ms >= offset_ms
            },
    decreases items.len(),
{
    if items.len() > 0 {
        let prefix = items.drop_last();
        assert(offsets_fit(prefix, offset_ms)) by {
            assert forall|i: int| 0 <= i < prefix.len() implies or_zero(#[trigger] prefix[i].start_ms)
                + offset_ms <= u64::MAX && or_zero(prefix[i].end_ms) + offset_ms <= u64::MAX by {
                assert(prefix[i] == items[i]);
            }
        }
        lemma_transcribed_segments_are_spoken(prefix, offset_ms);
        assert(or_zero(items[items.len() - 1].start_ms) + offset_ms <= u64::MAX);
        let prev = transcribed(prefix, offset_ms);
        let out = transcribed(items, offset_ms);
        assert forall|i: int| 0 <= i < out.len() implies {
            let s = #[trigger] out[i];
            &&& s.text.len() > 0
            &&& s.start_ms < s.end_ms
            &&& s.start_ms >= offset_ms
        } by {
            if i < prev.len() {
                assert(out[i] == prev[i]);
            }
        }
    }
}

/// Every timestamp of the items, moved by `offset_ms`, fits in `u64`.
pub open spec fn offsets_fit(items: Seq<RawItemView>, offset_ms: u64) -> bool {
    forall|i: int|
        0 <= i < items.len() ==> or_zero(#[trigger] items[i].start_ms) + offset_ms <= u64::MAX
            && or_zero(items[i].end_ms) + offset_ms <= u64::MAX
}

fn copy_text(t: &Option<String>) -> (r: String)
    ensures
        r@ == or_empty(t.deep_view()),
{
    match t {
        Some(s) => s.clone(),
        None => String::new(),
    }
}

/// The segments of a transcribed chunk that starts `offset_ms` into the
/// audio: timestamps are moved by the offset (missing ones count as zero),
/// and items without text or with no duration are dropped.
pub fn segments_from_items(items: &Vec<RawItem>, offset_ms: u64) -> (r: Vec<Segment>)
    requires
        offsets_fit(items.deep_view(), offset_ms),
    ensures
        r.deep_view() == transcribed(items.deep_view(), offset_ms),
{
    let ghost iv = items.deep_view();
    let mut r: Vec<Segment> = Vec::new();
    let mut i: usize = 0;
    while i < items.len()
        invariant
            i <= items@.len(),
            iv == items.deep_view(),
            offsets_fit(iv, offset_ms),
            r.deep_view() == transcribed(iv.take(i as int), offset_ms),
        decreases items@.len() - i,
    {
        let it = &items[i];
        proof {
            assert(iv.take(i as int + 1).drop_last() =~= iv.take(i as int));
            assert(iv.take(i as int + 1).last() == it@);
            assert(or_zero(iv[i as int].start_ms) + offset_ms <= u64::MAX);
        }
        let start = match it.start_ms {
            Some(v) => v,
            None => 0,
        } + offset_ms;
        let end = match it.end_ms {
            Some(v) => v,
            None => 0,
        } + offset_ms;
        let text = copy_text(&it.text);
        if !text.as_str().is_empty() && end > start {
            let ghost before = r.deep_view();
            r.push(Segment { start_ms: start, end_ms: end, text, translated_text: String::new() });
            proof {
                assert(r.deep_view() =~= before.push(item_segment(it@, offset_ms)));
            }
        }
        i = i + 1;
    }
    proof {
        assert(iv.take(items@.len() as int) =~= iv);
    }
    r
}

/// The segments of a transcription reply's content, or why there are none.
pub open spec fn transcription_of(content: Seq<char>, offset_ms: u64) -> Result<
    Seq<SegmentView>,
    ReplyError,
> {
    match parsed_json(content) {
        None => Err(ReplyError::MalformedContent),
        Some(root) => match segment_items(root) {
            None => Err(ReplyError::MissingSegments),
            Some(items) => if offsets_fit(items, offset_ms) {
                Ok(transcribed(items, offset_ms))
            } else {
                Err(ReplyError::TimestampOverflow)
            },
        },
    }
}

/// Whether every timestamp of the items, moved by `offset_ms`, fits in
/// `u64`.
fn check_offsets(items: &Vec<RawItem>, offset_ms: u64) -> (b: bool)
    ensures
        b == offsets_fit(items.deep_view(), offset_ms),
{
    let ghost iv = items.deep_view();
    let mut i: usize = 0;
    while i < items.len()
        invariant
            i <= items@.len(),
            iv == items.deep_view(),
            forall|k: int|
                0 <= k < i ==> or_zero(#[trigger] iv[k].start_ms) + offset_ms <= u64::MAX
                    && or_zero(iv[k].end_ms) + offset_ms <= u64::MAX,
        decreases items@.len() - i,
    {
        let s = match items[i].start_ms {
            Some(v) => v,
            None => 0,
        };
        let e = match items[i].end_ms {
            Some(v) => v,
            None => 0,
        };
        proof {
            assert(iv[i as int] == items@[i as int]@);
        }
        if s > u64::MAX - offset_ms || e > u64::MAX - offset_ms {
            proof {
                if offsets_fit(iv, offset_ms) {
                    assert(or_zero(iv[i as int].start_ms) + offset_ms <= u64::MAX
                        && or_zero(iv[i as int].end_ms) + offset_ms <= u64::MAX);
                }
            }
            return false;
        }
        i = i + 1;
    }
    true
}

/// The segments that a transcription reply's content describes, for a chunk
/// that starts `offset_ms` into the audio.
pub fn transcription_segments(content: &str, offset_ms: u64) -> (r: Result<
    Vec<Segment>,
    ReplyError,
>)
    ensures
        segments_result(r) == transcription_of(content@, offset_ms),
{
    let root = match parse_json(content) {
        None => return Err(ReplyError::MalformedContent),
        Some(root) => root,
    };
    match items_of(&root) {
        None => Err(ReplyError::MissingSegments),
        Some(items) => {
            if !check_offsets(&items, offset_ms) {
                return Err(ReplyError::TimestampOverflow);
            }
            Ok(segments_from_items(&items, offset_ms))
        },
    }
}

/// A translated segment: each field from the reply item, else from the
/// segment sent at the same position (if any), else zero or empty; the
/// translation only from the reply.
pub open spec fn translated_item(it: RawItemView, source: Option<SegmentView>) -> SegmentView {
    SegmentView {
        start_ms: match it.start_ms {
            Some(v) => v,
            None => match source {
                Some(o) => o.start_ms,
                None => 0,
            },
        },
        end_ms: match it.end_ms {
            Some(v) => v,
            None => match source {
                Some(o) => o.end_ms,
                None => 0,
            },
        },
        text: match it.text {
            Some(t) => t,
            None => match source {
                Some(o) => o.text,
                None => seq![],
            },
        },
        translated_text: or_empty(it.translated),
    }
}

/// The sent segment at position `i`, if there is one.
pub open spec fn sent_at(sources: Seq<SegmentView>, i: int) -> Option<SegmentView> {
    if 0 <= i < sources.len() {
        Some(sources[i])
    } else {
        None
    }
}

/// One translated segment per reply item, in the reply's order.
pub open spec fn merged_translation(items: Seq<RawItemView>, sources: Seq<SegmentView>) -> Seq<
    SegmentView,
> {
    Seq::new(items.len(), |i: int| translated_item(items[i], sent_at(sources, i)))
}

/// The translated segments of a translation reply item list, completed from
/// the segments that were sent.
pub fn merge_translation(items: &Vec<RawItem>, sources: &Vec<Segment>) -> (r: Vec<Segment>)
    ensures
        r.deep_view() == merged_translation(items.deep_view(), sources.deep_view()),
{
    let ghost iv = items.deep_view();
    let ghost ov = sources.deep_view();
    let mut r: Vec<Segment> = Vec::new();
    let mut i: usize = 0;
    while i < items.len()
        invariant
            i <= items@.len(),
            iv == items.deep_view(),
            ov == sources.deep_view(),
            r.deep_view() =~= merged_translation(iv, ov).take(i as int),
        decreases items@.len() - i,
    {
        let it = &items[i];
        let has_source = i < sources.len();
        let start_ms = match it.start_ms {
            Some(v) => v,
            None => if has_source {
                sources[i].start_ms
            } else {
                0
            },
        };
        let end_ms = match it.end_ms {
            Some(v) => v,
            None => if has_source {
                sources[i].end_ms
            } else {
                0
            },
        };
        let text = match &it.text {
            Some(t) => t.clone(),
            None => if has_source {
                sources[i].text.clone()
            } else {
                String::new()
            },
        };
        let translated_text = copy_text(&it.translated);
        let seg = Segment { start_ms, end_ms, text, translated_text };
        proof {
            assert(seg@ == translated_item(iv[i as int], sent_at(ov, i as int)));
        }
        let ghost before = r.deep_view();
        r.push(seg);
        proof {
            assert(r.deep_view() =~= before.push(seg@));
            assert(merged_translation(iv, ov).take(i as int + 1) =~= merged_translation(iv, ov).take(
                i as int,
            ).push(seg@));
        }
        i = i + 1;
    }
    r
}

/// The translated segments of a translation reply's content, or why there
/// are none.
pub open spec fn translation_of(content: Seq<char>, sources: Seq<SegmentView>) -> Result<
    Seq<SegmentView>,
    ReplyError,
> {
    match parsed_json(content) {
        None => Err(ReplyError::MalformedContent),
        Some(root) => match segment_items(root) {
            None => Err(ReplyError::MissingSegments),
            Some(items) => Ok(merged_translation(items, sources)),
        },
    }
}

/// The translated segments of a translation reply's content, completed from
/// the segments that were sent.
pub fn translation_segments(content: &str, sources: &Vec<Segment>) -> (r: Result<
    Vec<Segment>,
    ReplyError,
>)
    ensures
        segments_result(r) == translation_of(content@, sources.deep_view()),
{
    let root = match parse_json(content) {
        None => return Err(ReplyError::MalformedContent),
        Some(root) => root,
    };
    match items_of(&root) {
        None => Err(ReplyError::MissingSegments),
        Some(items) => Ok(merge_translation(&items, sources)),
    }
}

} // verus!
