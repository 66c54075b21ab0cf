//! Decisions of the re-translation of translations too long for their
//! segment: which segments to redo, with what limit, and what to keep.
use vstd::prelude::*;
use crate::segment::Segment;
use crate::text::{str_len, text_len};

verus! {

/// A translation read faster than this (bytes per second) is redone.
pub const MAX_CHARS_PER_SEC: u64 = 14;

/// Rate (bytes per second) used to size the limit asked for.
pub const TARGET_CHARS_PER_SEC: u64 = 13;

/// Requests made for one segment at most.
pub const RETRANSLATION_ATTEMPTS: u32 = 2;

/// The re-translation of one segment in progress.
pub struct Retranslation {
    /// Shortest translation seen so far.
    pub best: String,
    /// Length (bytes) that the translation must reach.
    pub limit: u128,
    /// Limit asked for in the next request.
    pub current_max: u128,
    /// Requests answered so far.
    pub attempts: u32,
    /// No further request is to be made.
    pub done: bool,
}

/// The limit asked for after one that was not met: 15 % less, rounded down.
pub open spec fn reduced(limit: u128) -> u128 {
    (limit * 85 / 100) as u128
}

/// The character limit of each segment's translation, as the translation
/// request states it: its duration read at 13 bytes per second, rounded
/// down.
pub fn char_limits(segments: &Vec<Segment>) -> (r: Vec<u128>)
    requires
        forall|i: int| 0 <= i < segments@.len() ==> (#[trigger] segments@[i])@.well_formed(),
    ensures
        r@.len() == segments@.len(),
        forall|i: int|
            0 <= i < r@.len() ==> #[trigger] r@[i] == segments@[i]@.duration()
                * TARGET_CHARS_PER_SEC / 1000,
{
    let mut r: Vec<u128> = Vec::new();
    let mut i: usize = 0;
    while i < segments.len()
        invariant
            i <= segments@.len(),
            r@.len() == i,
            forall|j: int| 0 <= j < segments@.len() ==> (#[trigger] segments@[j])@.well_formed(),
            forall|j: int|
                0 <= j < i ==> #[trigger] r@[j] == segments@[j]@.duration() * TARGET_CHARS_PER_SEC
                    / 1000,
        decreases segments@.len() - i,
    {
        proof {
            assert(segments@[i as int]@.well_formed());
        }
        r.push(segments[i].max_chars(TARGET_CHARS_PER_SEC));
        i = i + 1;
    }
    r
}

impl Retranslation {
    /// The re-translation of `seg`, when its translation is read faster than
    /// 14 bytes per second and the segment can hold at least one byte at 13
    /// bytes per second.
    pub fn plan(seg: &Segment) -> (r: Option<Retranslation>)
        requires
            seg@.well_formed(),
        ensures
            r is Some <==> (seg@.too_fast_to_read(MAX_CHARS_PER_SEC) && seg@.duration()
                * TARGET_CHARS_PER_SEC / 1000 > 0),
            r matches Some(p) ==> {
                &&& p.best@ == seg.translated_text@
                &&& p.limit == seg@.duration() * TARGET_CHARS_PER_SEC / 1000
                &&& p.current_max == p.limit
                &&& p.attempts == 0
                &&& !p.done
            },
    {
        if !seg.exceeds_speech_rate(MAX_CHARS_PER_SEC) {
            return None;
        }
        let limit = seg.max_chars(TARGET_CHARS_PER_SEC);
        if limit == 0 {
            return None;
        }
        Some(
            Retranslation {
                best: seg.translated_text.clone(),
                limit,
                current_max: limit,
                attempts: 0,
                done: false,
            },
        )
    }

    /// The limit to ask for in the next request, or `None` when no request
    /// is left to make.
    pub fn next_request(&self) -> (r: Option<u128>)
        ensures
            r == if !self.done && self.attempts < RETRANSLATION_ATTEMPTS {
                Some(self.current_max)
            } else {
                None
            },
    {
        if !self.done && self.attempts < RETRANSLATION_ATTEMPTS {
            Some(self.current_max)
        } else {
            None
        }
    }

    /// Takes the answer to a request: `None` when the request failed, which
    /// ends the re-translation. A shorter text replaces the best one; once
    /// the best fits the limit no more requests are made, otherwise the next
    /// one asks for 15 % less.
    pub fn on_reply(&mut self, reply: Option<String>)
        requires
            old(self).attempts < RETRANSLATION_ATTEMPTS,
        ensures
            final(self).limit == old(self).limit,
            match reply {
                None => {
                    &&& final(self).done
                    &&& final(self).best@ == old(self).best@
                    &&& final(self).attempts == old(self).attempts
                    &&& final(self).current_max == old(self).current_max
                },
                Some(t) => {
                    &&& final(self).best@ == if str_len(t@) < str_len(old(self).best@) {
                        t@
                    } else {
                        old(self).best@
                    }
                    &&& final(self).done == (old(self).done || str_len(final(self).best@)
                        <= old(self).limit)
                    &&& final(self).attempts == old(self).attempts + 1
                    &&& final(self).current_max == if str_len(final(self).best@)
                        <= old(self).limit {
                        old(self).current_max
                    } else {
                        reduced(old(self).current_max)
                    }
                },
            },
            str_len(final(self).best@) <= str_len(old(self).best@),
    {
        match reply {
            None => {
                self.done = true;
            },
            Some(t) => {
                if text_len(&t) < text_len(&self.best) {
                    self.best = t;
                }
                self.attempts = self.attempts + 1;
                if (text_len(&self.best) as u128) <= self.limit {
                    self.done = true;
                } else {
                    let m = self.current_max;
                    let next = m / 100 * 85 + m % 100 * 85 / 100;
                    proof {
                        assert(next == m * 85 / 100) by (nonlinear_arith)
                            requires
                                next == m / 100 * 85 + m % 100 * 85 / 100,
                        ;
                    }
                    self.current_max = next;
                }
            },
        }
    }

    /// Puts the best translation in `seg`; true when it differs from the
    /// one the segment had.
    pub fn apply(self, seg: &mut Segment) -> (changed: bool)
        ensures
            changed == (self.best@ != old(seg).translated_text@),
            final(seg).translated_text@ == self.best@,
            final(seg).start_ms == old(seg).start_ms,
            final(seg).end_ms == old(seg).end_ms,
            final(seg).text@ == old(seg).text@,
    {
        if self.best == seg.translated_text {
            false
        } else {
            seg.translated_text = self.best;
            true
        }
    }
}

} // verus!
