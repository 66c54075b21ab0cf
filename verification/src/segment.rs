//! Speech segments and the pipeline configuration.
use vstd::prelude::*;
use crate::text::{str_len, text_len};

verus! {

/// A stretch of speech with its timing in milliseconds, its transcript and
/// its translation.
#[derive(Debug, Clone)]
pub struct Segment {
    pub start_ms: u64,
    pub end_ms: u64,
    pub text: String,
    pub translated_text: String,
}

/// The mathematical value of a [`Segment`].
pub struct SegmentView {
    pub start_ms: u64,
    pub end_ms: u64,
    pub text: Seq<char>,
    pub translated_text: Seq<char>,
}

impl View for Segment {
    type V = SegmentView;

    open spec fn view(&self) -> SegmentView {
        SegmentView {
            start_ms: self.start_ms,
            end_ms: self.end_ms,
            text: self.text@,
            translated_text: self.translated_text@,
        }
    }
}

impl DeepView for Segment {
    type V = SegmentView;

    open spec fn deep_view(&self) -> SegmentView {
        self@
    }
}

impl SegmentView {
    /// A segment does not end before it starts.
    pub open spec fn well_formed(self) -> bool {
        self.start_ms <= self.end_ms
    }

    /// Length of the segment in milliseconds.
    pub open spec fn duration(self) -> int {
        self.end_ms - self.start_ms
    }

    /// The translation, read in this segment, takes more than `rate` bytes
    /// per second.
    pub open spec fn too_fast_to_read(self, rate: u64) -> bool {
        self.duration() > 0 && str_len(self.translated_text) * 1000 > rate * self.duration()
    }
}

impl Segment {
    /// Duration of the segment in milliseconds.
    pub fn duration_ms(&self) -> (d: u64)
        requires
            self.start_ms <= self.end_ms,
        ensures
            d == self.end_ms - self.start_ms,
    {
        self.end_ms - self.start_ms
    }

    /// Most bytes of translation that can be read in this segment at
    /// `chars_per_sec`: the duration in seconds times the rate, rounded down.
    pub fn max_chars(&self, chars_per_sec: u64) -> (n: u128)
        requires
            self.start_ms <= self.end_ms,
        ensures
            n == (self.end_ms - self.start_ms) * chars_per_sec / 1000,
    {
        let d = (self.end_ms - self.start_ms) as u128;
        let r = chars_per_sec as u128;
        proof {
            assert(d * r <= 0xffff_ffff_ffff_ffff * 0xffff_ffff_ffff_ffffu128) by (nonlinear_arith)
                requires
                    d <= 0xffff_ffff_ffff_ffffu128,
                    r <= 0xffff_ffff_ffff_ffffu128,
            ;
        }
        d * r / 1000
    }

    /// Whether reading the translation in this segment takes more than
    /// `chars_per_sec` bytes per second (never for a segment of no length).
    pub fn exceeds_speech_rate(&self, chars_per_sec: u64) -> (b: bool)
        requires
            self.start_ms <= self.end_ms,
        ensures
            b == self@.too_fast_to_read(chars_per_sec),
    {
        let d = (self.end_ms - self.start_ms) as u128;
        let r = chars_per_sec as u128;
        proof {
            assert(d * r <= 0xffff_ffff_ffff_ffff * 0xffff_ffff_ffff_ffffu128) by (nonlinear_arith)
                requires
                    d <= 0xffff_ffff_ffff_ffffu128,
                    r <= 0xffff_ffff_ffff_ffffu128,
            ;
        }
        d > 0 && (text_len(&self.translated_text) as u128) * 1000 > r * d
    }

    /// A field-by-field copy of the segment.
    pub fn duplicate(&self) -> (r: Segment)
        ensures
            r@ == self@,
    {
        Segment {
            start_ms: self.start_ms,
            end_ms: self.end_ms,
            text: self.text.clone(),
            translated_text: self.translated_text.clone(),
        }
    }
}

/// The view of every segment of a sequence.
pub open spec fn views(segs: Seq<Segment>) -> Seq<SegmentView> {
    segs.map_values(|s: Segment| s@)
}

/// Settings of a dubbing run. Paths are kept as the strings the user gave.
#[derive(Debug, Clone)]
pub struct Config {
    pub api_key: String,
    pub input_path: String,
    pub output_path: String,
    pub voice: String,
    pub base_url: String,
    pub max_concurrent_tts: usize,
    pub chunk_duration_secs: u64,
}

/// The API that every request goes to.
pub open spec fn default_base_url() -> Seq<char> {
    "https://openrouter.ai/api/v1"@
}

impl Config {
    /// The settings for one input and output: requests go to
    /// `https://openrouter.ai/api/v1`, at most 5 speech requests run at once,
    /// and audio is transcribed in chunks of 300 s.
    pub fn new(api_key: String, input_path: String, output_path: String, voice: String) -> (c:
        Config)
        ensures
            c.api_key == api_key,
            c.input_path == input_path,
            c.output_path == output_path,
            c.voice == voice,
            c.base_url@ == default_base_url(),
            c.max_concurrent_tts == 5,
            c.chunk_duration_secs == 300,
    {
        Config {
            api_key,
            input_path,
            output_path,
            voice,
            base_url: String::from_str("https://openrouter.ai/api/v1"),
            max_concurrent_tts: 5,
            chunk_duration_secs: 300,
        }
    }
}

} // verus!
