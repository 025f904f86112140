//! Streaming digital audio convolution over fixed-point samples.
//!
//! An impulse response of arbitrary length is convolved against a stream of
//! input samples delivered in blocks of arbitrary size, either by direct
//! time-domain summation or by a partitioned overlap-add method that emits
//! output in hops of two analysis blocks. Samples are `i64` fixed-point
//! values, so the two methods agree exactly, sample for sample.

use vstd::prelude::*;

pub mod convolution;
pub mod fast_convolver;
pub mod ring_buffer;

pub use crate::fast_convolver::ConvolutionMode;
pub use crate::fast_convolver::FastConvolver;
pub use crate::ring_buffer::RingBuffer;

verus! {

/// Largest magnitude a sample or impulse-response coefficient may have.
/// Keeps every convolution sum the engines form within `i64` range.
pub const SAMPLE_LIMIT: i64 = 16777216;

/// Failures of the streaming interface; every one reports caller misuse of a
/// synchronous, pure-computation API.
#[derive(Clone, Copy, Debug, PartialEq, Eq, Structural)]
pub enum Error {
    /// Input and output sequences of a direct-mode call disagree in length.
    LengthMismatch,
    /// A mode-specific entry point was called against an engine constructed
    /// in the other mode.
    WrongMode,
    /// A buffer access outside the addressable history, such as a negative
    /// fractional read position.
    OutOfRange,
}

} // verus!
