//! Decoding of the streamed speech-synthesis reply: server-sent events whose
//! `data:` lines carry base64 PCM audio.
use vstd::prelude::*;
use vstd::utf8::{valid_utf8, decode_utf8};
use base64::Engine;
use crate::json::{Json, JsonView, json_view, parsed_json, parse_json, json_field, json_index, json_str_field, field, index, str_field};
use crate::text::{str_len, trimmed, trim_chars, chars_of, chars_between, same_chars, string_from_chars};

verus! {

/// Name for the text that `String::from_utf8_lossy` makes of `bytes`.
pub uninterp spec fn lossy_text(bytes: Seq<u8>) -> Seq<char>;

/// The character of a 6-bit value in the standard base64 alphabet
/// (RFC 4648: `A`-`Z`, `a`-`z`, `0`-`9`, `+`, `/`).
pub open spec fn base64_char(v: int) -> char {
    if v < 26 {
        ((65 + v) as u32) as char
    } else if v < 52 {
        ((97 + v - 26) as u32) as char
    } else if v < 62 {
        ((48 + v - 52) as u32) as char
    } else if v == 62 {
        '+'
    } else {
        '/'
    }
}

/// Standard base64 with padding: every 3 bytes become 4 characters, a last
/// group of 1 or 2 bytes is padded with `=`.
pub open spec fn base64_standard(b: Seq<u8>) -> Seq<char>
    decreases b.len(),
{
    if b.len() == 0 {
        seq![]
    } else {
        let b0 = b[0] as int;
        let b1 = if b.len() > 1 { b[1] as int } else { 0 };
        let b2 = if b.len() > 2 { b[2] as int } else { 0 };
        let c0 = base64_char(b0 / 4);
        let c1 = base64_char((b0 % 4) * 16 + b1 / 16);
        let c2 = base64_char((b1 % 16) * 4 + b2 / 64);
        let c3 = base64_char(b2 % 64);
        if b.len() == 1 {
            seq![c0, c1, '=', '=']
        } else if b.len() == 2 {
            seq![c0, c1, c2, '=']
        } else {
            seq![c0, c1, c2, c3] + base64_standard(b.skip(3))
        }
    }
}

/// The bytes whose standard base64 text is `s`, `None` when `s` is the
/// text of no bytes (there is at most one such sequence, see
/// `lemma_base64_standard_injective`).
pub open spec fn base64_decoding(s: Seq<char>) -> Option<Seq<u8>> {
    if exists|b: Seq<u8>| base64_standard(b) == s {
        Some(choose|b: Seq<u8>| base64_standard(b) == s)
    } else {
        None
    }
}

/// The code point of the character of a 6-bit value.
pub open spec fn base64_code(v: int) -> int {
    if v < 26 {
        65 + v
    } else if v < 52 {
        97 + v - 26
    } else if v < 62 {
        48 + v - 52
    } else if v == 62 {
        43
    } else {
        47
    }
}

proof fn lemma_base64_char_code(v: int)
    requires
        0 <= v < 64,
    ensures
        base64_char(v) as int == base64_code(v),
        base64_char(v) != '=',
{
}

/// Distinct 6-bit values have distinct characters.
proof fn lemma_base64_char_injective(u: int, v: int)
    requires
        0 <= u < 64,
        0 <= v < 64,
        base64_char(u) == base64_char(v),
    ensures
        u == v,
{
    lemma_base64_char_code(u);
    lemma_base64_char_code(v);
}

/// Two byte sequences with the same standard base64 text are equal.
pub proof fn lemma_base64_standard_injective(x: Seq<u8>, y: Seq<u8>)
    requires
        base64_standard(x) == base64_standard(y),
    ensures
        x == y,
    decreases x.len(),
{
    let s = base64_standard(x);
    if x.len() == 0 || y.len() == 0 {
        if x.len() != 0 || y.len() != 0 {
            assert(base64_standard(x).len() != base64_standard(y).len());
        }
        assert(x =~= y);
    } else {
        let (x0, y0) = (x[0] as int, y[0] as int);
        let x1 = if x.len() > 1 { x[1] as int } else { 0 };
        let y1 = if y.len() > 1 { y[1] as int } else { 0 };
        let x2 = if x.len() > 2 { x[2] as int } else { 0 };
        let y2 = if y.len() > 2 { y[2] as int } else { 0 };
        let bx = base64_standard(x);
        let by = base64_standard(y);
        assert(bx[0] == by[0] && bx[1] == by[1] && bx[2] == by[2] && bx[3] == by[3]);
        lemma_base64_char_code((x1 % 16) * 4 + x2 / 64);
        lemma_base64_char_code((y1 % 16) * 4 + y2 / 64);
        lemma_base64_char_code(x2 % 64);
        lemma_base64_char_code(y2 % 64);
        assert(x.len() == 1 <==> y.len() == 1);
        assert(x.len() == 2 <==> y.len() == 2);
        lemma_base64_char_injective(x0 / 4, y0 / 4);
        lemma_base64_char_injective((x0 % 4) * 16 + x1 / 16, (y0 % 4) * 16 + y1 / 16);
        assert(x0 == y0 && x1 / 16 == y1 / 16);
        if x.len() >= 2 {
            lemma_base64_char_injective((x1 % 16) * 4 + x2 / 64, (y1 % 16) * 4 + y2 / 64);
            assert(x1 == y1 && x2 / 64 == y2 / 64);
        }
        if x.len() >= 3 {
            lemma_base64_char_injective(x2 % 64, y2 % 64);
            assert(x2 == y2);
            assert(bx.skip(4) =~= base64_standard(x.skip(3)));
            assert(by.skip(4) =~= base64_standard(y.skip(3)));
            lemma_base64_standard_injective(x.skip(3), y.skip(3));
            assert(x =~= seq![x[0], x[1], x[2]] + x.skip(3));
            assert(y =~= seq![y[0], y[1], y[2]] + y.skip(3));
        } else {
            assert(x =~= y);
        }
    }
}

/// The length of the base64 text of `n` bytes fits in `usize`.
pub open spec fn base64_len_fits(n: nat) -> bool {
    if n % 3 > 0 {
        n / 3 * 4 + 4 <= usize::MAX
    } else {
        n / 3 * 4 <= usize::MAX
    }
}

/// Trusted: `base64::engine::general_purpose::STANDARD.encode`, which
/// writes standard base64 with padding (it panics only when the length of
/// the text overflows `usize`).
#[verifier::external_body]
fn encode_base64(bytes: &[u8]) -> (s: String)
    requires
        base64_len_fits(bytes@.len()),
    ensures
        s@ == base64_standard(bytes@),
{
    base64::engine::general_purpose::STANDARD.encode(bytes)
}

/// The audio of a WAV file as the text that a transcription request
/// carries: standard base64 with padding.
pub fn audio_payload(bytes: &[u8]) -> (s: String)
    requires
        base64_len_fits(bytes@.len()),
    ensures
        s@ == base64_standard(bytes@),
{
    encode_base64(bytes)
}

/// Trusted: `base64::engine::general_purpose::STANDARD.decode`, which
/// requires canonical padding and refuses set trailing bits: it accepts
/// exactly the standard encodings, and gives back the bytes encoded.
#[verifier::external_body]
fn decode_base64(s: &str) -> (r: Option<Vec<u8>>)
    ensures
        match r {
            Some(v) => base64_standard(v@) == s@,
            None => forall|b: Seq<u8>| base64_standard(b) != s@,
        },
{
    base64::engine::general_purpose::STANDARD.decode(s).ok()
}

/// Trusted: `String::from_utf8_lossy`, which decodes valid UTF-8 exactly; on
/// invalid input the contract only names the result (invalid sequences
/// become U+FFFD), a function of `bytes`.
#[verifier::external_body]
fn decode_lossy(bytes: &[u8]) -> (s: String)
    ensures
        s@ == lossy_text(bytes@),
        valid_utf8(bytes@) ==> s@ == decode_utf8(bytes@),
{
    String::from_utf8_lossy(bytes).into_owned()
}

/// The event-line prefix that carries data.
pub open spec fn data_prefix() -> Seq<char> {
    "data: "@
}

/// The data that ends the stream.
pub open spec fn done_marker() -> Seq<char> {
    "[DONE]"@
}

/// The audio of a streamed chunk: `choices[0].delta.audio.data`, when it
/// is a string.
pub open spec fn delta_audio(root: JsonView) -> Option<Seq<char>> {
    match json_field(root, "choices"@) {
        Some(choices) => match json_index(choices, 0) {
            Some(first) => match json_field(first, "delta"@) {
                Some(delta) => match json_field(delta, "audio"@) {
                    Some(audio) => json_str_field(audio, "data"@),
                    None => None,
                },
                None => None,
            },
            None => None,
        },
        None => None,
    }
}

fn first_delta_audio(root: &Json) -> (r: Option<String>)
    ensures
        match r {
            Some(a) => delta_audio(json_view(*root)) == Some(a@),
            None => delta_audio(json_view(*root)) is None,
        },
{
    let choices = match field(root, "choices") {
        Some(c) => c,
        None => return None,
    };
    let first = match index(choices, 0) {
        Some(f) => f,
        None => return None,
    };
    let delta = match field(first, "delta") {
        Some(d) => d,
        None => return None,
    };
    let audio = match field(delta, "audio") {
        Some(a) => a,
        None => return None,
    };
    str_field(audio, "data")
}

/// One more error, the count staying at `u64::MAX` once there.
pub open spec fn bump(e: u64) -> u64 {
    if e == u64::MAX { e } else { (e + 1) as u64 }
}

/// Position of the first line feed in `buf`.
pub open spec fn newline_at(buf: Seq<char>) -> Option<nat>
    decreases buf.len(),
{
    if buf.len() == 0 {
        None
    } else if buf[0] == '\n' {
        Some(0)
    } else {
        match newline_at(buf.drop_first()) {
            Some(k) => Some(k + 1),
            None => None,
        }
    }
}

/// A line feed found by `newline_at` is inside the text.
pub proof fn lemma_newline_at(buf: Seq<char>)
    ensures
        newline_at(buf) matches Some(k) ==> k < buf.len() && buf[k as int] == '\n',
    decreases buf.len(),
{
    if buf.len() > 0 && buf[0] != '\n' {
        lemma_newline_at(buf.drop_first());
    }
}

/// The audio and error count after one event's data: the base64 audio at
/// `choices[0].delta.audio.data` is decoded and appended; data that is not
/// JSON, or audio that is not base64, counts as an error.
pub open spec fn take_data(pcm: Seq<u8>, errors: u64, data: Seq<char>) -> (Seq<u8>, u64) {
    match parsed_json(data) {
        None => (pcm, bump(errors)),
        Some(root) => match delta_audio(root) {
            None => (pcm, errors),
            Some(a) => if a.len() == 0 {
                (pcm, errors)
            } else {
                match base64_decoding(a) {
                    Some(b) => (pcm + b, errors),
                    None => (pcm, bump(errors)),
                }
            },
        },
    }
}

/// The state of a speech stream: text not yet split into lines, the audio
/// decoded so far and the number of unreadable events.
pub struct StreamState {
    pub buffer: Seq<char>,
    pub pcm: Seq<u8>,
    pub errors: u64,
}

/// Consumes every complete line of `buf`, in order, up to a `data: [DONE]`
/// line; lines that do not start with `data: ` (once trimmed) are skipped.
pub open spec fn drain(buf: Seq<char>, pcm: Seq<u8>, errors: u64) -> StreamState
    decreases buf.len(),
{
    match newline_at(buf) {
        None => StreamState { buffer: buf, pcm, errors },
        Some(k) => {
            proof {
                lemma_newline_at(buf);
            }
            let line = trimmed(buf.take(k as int));
            let rest = buf.skip(k as int + 1);
            if line.len() >= 6 && line.take(6) == data_prefix() {
                let data = line.skip(6);
                if data == done_marker() {
                    StreamState { buffer: rest, pcm, errors }
                } else {
                    let (p, e) = take_data(pcm, errors, data);
                    drain(rest, p, e)
                }
            } else {
                drain(rest, pcm, errors)
            }
        },
    }
}

/// Whether consuming the lines of `buf` meets a `data: [DONE]` line.
pub open spec fn stops_at_done(buf: Seq<char>) -> bool
    decreases buf.len(),
{
    match newline_at(buf) {
        None => false,
        Some(k) => {
            proof {
                lemma_newline_at(buf);
            }
            let line = trimmed(buf.take(k as int));
            if line.len() >= 6 && line.take(6) == data_prefix() && line.skip(6) == done_marker() {
                true
            } else {
                stops_at_done(buf.skip(k as int + 1))
            }
        },
    }
}

proof fn lemma_newline_at_append(a: Seq<char>, b: Seq<char>)
    ensures
        newline_at(a) matches Some(k) ==> newline_at(a + b) == Some(k),
    decreases a.len(),
{
    if a.len() > 0 {
        assert((a + b)[0] == a[0]);
        if a[0] != '\n' {
            lemma_newline_at_append(a.drop_first(), b);
            assert((a + b).drop_first() =~= a.drop_first() + b);
        }
    }
}

/// Text that arrives in two pieces is read as if it had arrived at once:
/// consuming the complete lines of the first piece, then those of what is
/// left of it followed by the second piece, decodes the same audio and
/// counts the same errors as consuming both at once, unless the first piece
/// already ends the stream.
pub proof fn lemma_drain_in_pieces(b1: Seq<char>, b2: Seq<char>, pcm: Seq<u8>, errors: u64)
    requires
        !stops_at_done(b1),
    ensures
        ({
            let first = drain(b1, pcm, errors);
            drain(first.buffer + b2, first.pcm, first.errors) == drain(b1 + b2, pcm, errors)
        }),
    decreases b1.len(),
{
    lemma_newline_at_append(b1, b2);
    match newline_at(b1) {
        None => {},
        Some(k) => {
            lemma_newline_at(b1);
            let rest = b1.skip(k as int + 1);
            assert((b1 + b2).take(k as int) =~= b1.take(k as int));
            assert((b1 + b2).skip(k as int + 1) =~= rest + b2);
            let line = trimmed(b1.take(k as int));
            if line.len() >= 6 && line.take(6) == data_prefix() {
                let (p, e) = take_data(pcm, errors, line.skip(6));
                lemma_drain_in_pieces(rest, b2, p, e);
            } else {
                lemma_drain_in_pieces(rest, b2, pcm, errors);
            }
        },
    }
}

/// Why the audio of a speech-synthesis reply was refused.
#[derive(Debug, Clone, Copy, PartialEq, Eq)]
pub enum SpeechError {
    /// The stream carried no audio at all.
    NoAudio,
    /// The audio is shorter than the text it should read could be spoken in.
    Truncated { got: usize, expected: u128 },
}

/// Fewest PCM bytes (24 kHz, 16 bit, mono) accepted for a text of
/// `text_bytes` bytes: the text read at 12 bytes per second, at least half a
/// second, at a fifth of the 48000 bytes per second of real speech.
pub open spec fn min_expected_bytes(text_bytes: int) -> int {
    if text_bytes * 800 >= 4800 {
        text_bytes * 800
    } else {
        4800
    }
}

/// The audio of a streamed speech-synthesis reply, decoded as it arrives.
pub struct SpeechStream {
    buffer: Vec<char>,
    pcm: Vec<u8>,
    errors: u64,
}

impl View for SpeechStream {
    type V = StreamState;

    closed spec fn view(&self) -> StreamState {
        StreamState { buffer: self.buffer@, pcm: self.pcm@, errors: self.errors }
    }
}

/// Position of the first line feed in `v`.
fn find_newline(v: &Vec<char>) -> (r: Option<usize>)
    ensures
        match r {
            Some(k) => newline_at(v@) == Some(k as nat),
            None => newline_at(v@) is None,
        },
{
    let mut i: usize = 0;
    proof {
        assert(v@.skip(0) =~= v@);
    }
    while i < v.len()
        invariant
            i <= v@.len(),
            newline_at(v@) == match newline_at(v@.skip(i as int)) {
                Some(k) => Some((k + i) as nat),
                None => None,
            },
        decreases v@.len() - i,
    {
        proof {
            assert(v@.skip(i as int).drop_first() =~= v@.skip(i as int + 1));
        }
        if v[i] == '\n' {
            return Some(i);
        }
        i = i + 1;
    }
    None
}

/// Appends `src` to `dst`.
fn append_bytes(dst: &mut Vec<u8>, src: &Vec<u8>)
    ensures
        final(dst)@ == old(dst)@ + src@,
{
    let mut b: usize = 0;
    while b < src.len()
        invariant
            b <= src@.len(),
            dst@ == old(dst)@ + src@.take(b as int),
        decreases src@.len() - b,
    {
        dst.push(src[b]);
        proof {
            assert(src@.take(b as int + 1) =~= src@.take(b as int).push(src@[b as int]));
        }
        b = b + 1;
    }
    proof {
        assert(src@.take(src@.len() as int) =~= src@);
    }
}

/// Whether `v` starts with `prefix`.
fn starts_with(v: &Vec<char>, prefix: &Vec<char>) -> (r: bool)
    ensures
        r == (v@.len() >= prefix@.len() && v@.take(prefix@.len() as int) == prefix@),
{
    if v.len() < prefix.len() {
        return false;
    }
    let head = chars_between(v, 0, prefix.len());
    proof {
        assert(v@.subrange(0, prefix@.len() as int) =~= v@.take(prefix@.len() as int));
    }
    same_chars(&head, prefix)
}

impl SpeechStream {
    /// A stream that has received nothing.
    pub fn new() -> (s: SpeechStream)
        ensures
            s@ == (StreamState { buffer: seq![], pcm: seq![], errors: 0 }),
    {
        SpeechStream { buffer: Vec::new(), pcm: Vec::new(), errors: 0 }
    }

    /// The audio decoded so far.
    pub fn audio(&self) -> (r: &Vec<u8>)
        ensures
            r@ == self@.pcm,
    {
        &self.pcm
    }

    /// The number of events whose data could not be read.
    pub fn errors(&self) -> (r: u64)
        ensures
            r == self@.errors,
    {
        self.errors
    }

    /// Takes the next piece of the reply body: decodes it (invalid UTF-8
    /// becomes U+FFFD), appends it to the pending text and consumes every
    /// complete line.
    pub fn feed(&mut self, chunk: &[u8])
        ensures
            final(self)@ == drain(
                old(self)@.buffer + lossy_text(chunk@),
                old(self)@.pcm,
                old(self)@.errors,
            ),
    {
        let text = decode_lossy(chunk);
        let more = chars_of(text.as_str());
        let mut j: usize = 0;
        let ghost start = self.buffer@;
        while j < more.len()
            invariant
                j <= more@.len(),
                self.buffer@ == start + more@.take(j as int),
                self.pcm@ == old(self)@.pcm,
                self.errors == old(self)@.errors,
                start == old(self)@.buffer,
                more@ == lossy_text(chunk@),
            decreases more@.len() - j,
        {
            self.buffer.push(more[j]);
            proof {
                assert(more@.take(j as int + 1) =~= more@.take(j as int).push(more@[j as int]));
            }
            j = j + 1;
        }
        proof {
            assert(more@.take(more@.len() as int) =~= more@);
        }
        let ghost target = drain(self.buffer@, self.pcm@, self.errors);
        let prefix = chars_of("data: ");
        proof {
            reveal_strlit("data: ");
        }
        let done = chars_of("[DONE]");
        loop
            invariant_except_break
                prefix@ == data_prefix(),
                done@ == done_marker(),
                drain(self.buffer@, self.pcm@, self.errors) == target,
            ensures
                self@ == target,
            decreases self.buffer@.len(),
        {
            let k = match find_newline(&self.buffer) {
                None => {
                    break;
                },
                Some(k) => k,
            };
            let ghost buf = self.buffer@;
            proof {
                reveal_strlit("data: ");
                lemma_newline_at(buf);
                assert(k < buf.len());
            }
            let len = self.buffer.len();
            let line = trim_chars(&chars_between(&self.buffer, 0, k));
            let rest = chars_between(&self.buffer, k + 1, len);
            proof {
                assert(buf.subrange(0, k as int) =~= buf.take(k as int));
                assert(buf.subrange(k as int + 1, buf.len() as int) =~= buf.skip(k as int + 1));
            }
            self.buffer = rest;
            proof {
                assert(line@ == trimmed(buf.take(k as int)));
                assert(self.buffer@ == buf.skip(k as int + 1));
            }
            if starts_with(&line, &prefix) {
                let data = chars_between(&line, 6, line.len());
                proof {
                    assert(line@.subrange(6, line@.len() as int) =~= line@.skip(6));
                }
                if same_chars(&data, &done) {
                    break;
                }
                let data_text = string_from_chars(data.as_slice());
                proof {
                    assert(data_text@ == line@.skip(6));
                    assert(data_text@ != done_marker());
                }
                let audio = match parse_json(data_text.as_str()) {
                    None => {
                        self.errors = if self.errors == u64::MAX {
                            self.errors
                        } else {
                            self.errors + 1
                        };
                        None
                    },
                    Some(root) => first_delta_audio(&root),
                };
                match audio {
                    None => {},
                    Some(a) => {
                        if !a.as_str().is_empty() {
                            match decode_base64(a.as_str()) {
                                Some(bytes) => {
                                    proof {
                                        let d = choose|b: Seq<u8>| base64_standard(b) == a@;
                                        lemma_base64_standard_injective(bytes@, d);
                                    }
                                    append_bytes(&mut self.pcm, &bytes);
                                },
                                None => {
                                    self.errors = if self.errors == u64::MAX {
                                        self.errors
                                    } else {
                                        self.errors + 1
                                    };
                                },
                            }
                        }
                    },
                }
            }
        }
    }

    /// The audio of the whole reply for `text`, refused when empty or
    /// shorter than `min_expected_bytes` of the text's byte length.
    pub fn finish(self, text: &str) -> (r: Result<Vec<u8>, SpeechError>)
        ensures
            match r {
                Ok(v) => v@ == self@.pcm && self@.pcm.len() > 0 && self@.pcm.len()
                    >= min_expected_bytes(str_len(text@)),
                Err(SpeechError::NoAudio) => self@.pcm.len() == 0,
                Err(SpeechError::Truncated { got, expected }) => {
                    &&& self@.pcm.len() > 0
                    &&& got == self@.pcm.len()
                    &&& expected == min_expected_bytes(str_len(text@))
                    &&& got < expected
                },
            },
    {
        let got = self.pcm.len();
        if got == 0 {
            return Err(SpeechError::NoAudio);
        }
        let by_rate: u128 = text.len() as u128 * 800;
        let expected: u128 = if by_rate >= 4800 {
            by_rate
        } else {
            4800
        };
        if (got as u128) < expected {
            return Err(SpeechError::Truncated { got, expected });
        }
        Ok(self.pcm)
    }
}

} // verus!
