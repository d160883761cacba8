//! Verified sample-buffer core for a small family of audio effects.
//!
//! The circular delay line in [`delay_line`] is generic over its sample
//! type: its cursor arithmetic, delay clamping and history are proved here,
//! while the arithmetic that mixes a delayed sample back into the line is
//! handed in by the caller.

pub mod delay_line;

pub use delay_line::DelayLine;
