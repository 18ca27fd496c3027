//! Periodic index-of-coincidence analysis (the Kullback test).
//!
//! Given a stream of small integer symbol codes and a maximum candidate
//! period, the library computes, for every candidate period, the average
//! index of coincidence over the columns obtained by reading the stream
//! with that stride.  A spike in the resulting score curve marks a likely
//! key length of a polyalphabetic cipher.
//!
//! Scores are exact fixed-point numbers: a score `s` stands for the
//! rational `s / SCALE`, and every computation (per-column coincidence
//! counting, per-period averaging, spike detection) is carried out in
//! integer arithmetic, so results are reproducible bit for bit.

use vstd::prelude::*;

pub mod coincidence;
pub mod scan;
pub mod spikes;
pub mod transcribe;
pub mod transpose;

pub use scan::scan;
pub use scan::ScanError;
pub use spikes::detect;
pub use spikes::score_max;
pub use spikes::score_min;
pub use transcribe::transcribe;
pub use transcribe::TranscribeError;

verus! {

/// Denominator of the fixed-point score representation: a stored score
/// `s` stands for the rational number `s / SCALE`.
pub const SCALE: u64 = 1_000_000_000;

/// Largest stream length the engine accepts.  The bound keeps every
/// intermediate product of the score computation inside `u128`.
pub const MAX_STREAM_LEN: usize = 1_048_576;

} // verus!
