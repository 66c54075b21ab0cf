//! Verified core of an automatic video dubbing tool: the timeline of speech
//! segments, the rules that clean and group them, and the decoding of model
//! replies.
use vstd::prelude::*;

pub mod segment;
pub mod text;
pub mod grouping;
pub mod cleanup;
pub mod reply;
pub mod speech;
pub mod retranslation;
pub mod schedule;
pub mod mixing;
pub mod json;

verus! {

} // verus!
