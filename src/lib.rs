//! Scheduling of circuits onto a shuttled chain of qubit slots, with the
//! bookkeeping that the analytic reliability model needs.
use vstd::prelude::*;

pub mod balanced;
pub mod baseline;
pub mod circuit;
pub mod emit;
pub mod frontier;
pub mod overlapped;
pub mod parse;
pub mod positions;
pub mod reliability;
pub mod schedule;
pub mod scheduler;
pub mod sector;
pub mod text;

verus! {

/// Duration of a single-qubit gate.
pub const SQ_TIME: u64 = 1;

/// Duration of a two-qubit gate.
pub const TQ_TIME: u64 = 5;

/// Duration of a swap of two adjacent slots.
pub const SWAP_TIME: u64 = 3 * TQ_TIME;

/// Duration of one shuttle step.
pub const SHUTTLE_TIME: u64 = 15;

/// Duration of a measurement.
pub const MEASURE_TIME: u64 = 1;

/// Correction cycle of the distance-3 seven-qubit code.
pub const C7_QECTIME: u64 = 5 * TQ_TIME;

/// Correction cycle of the distance-5 seventeen-qubit code.
pub const C17_QECTIME: u64 = 10 * TQ_TIME;

/// Correction cycle of the distance-7 thirty-one-qubit code.
pub const C31_QECTIME: u64 = 10 * TQ_TIME;

/// A run stops once its time passes this ceiling; a returned time above it
/// marks a schedule cut short.
pub const TIME_CEILING: u64 = 987654321000;

/// Largest correction cycle the schedulers accept.
pub const MAX_QEC_TIME: u64 = 0x1_0000_0000;

} // verus!
