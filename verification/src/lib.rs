//! Turns the diagnostic text of an audio-analysis pass into timestamped
//! silence and loudness events, sweeps those events into a gapless,
//! non-overlapping sequence of chunks tiling the whole media duration, and
//! serializes the chunks as a hierarchical timeline document for a
//! non-linear video editor.

use vstd::prelude::*;

pub mod events;
pub mod mlt;
pub mod segment;
pub mod time;

verus! {

/// The expected pattern was absent from the analysis text, or its numbers do
/// not fit the millisecond range this library works in.
#[derive(Clone, Copy, Debug, PartialEq, Eq, Structural)]
pub struct ParseError;

/// The loud-start sequence is not one the sweep can tile the duration with:
/// a loud span's end falls past the next loud start or past the duration.
#[derive(Clone, Copy, Debug, PartialEq, Eq, Structural)]
pub struct OrderingError;

} // verus!
