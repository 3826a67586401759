//! Meeting Transcriber: local-only, Vietnamese-first meeting transcription.
//!
//! The decisions of the program, each stated as a contract and proved: how a
//! recording is cut, transcribed and checkpointed so that it can be resumed,
//! which lines of a transcript were invented, how the two sides of a meeting are
//! kept on one timeline and woven together, and what the single job runner
//! answers. Reading, writing, listening and decoding are done around it.
//!
//! Times are whole nanoseconds (`i64`): a sample at 16 kHz lasts 62,500 of them
//! and a decoder's centisecond ten million, so every time the program computes
//! is exact. Audio samples are 16-bit PCM wherever their values are looked at.

pub mod audio;
pub mod chunking;
pub mod commands;
pub mod engine;
pub mod merge;
pub mod paths;
pub mod patterns;
pub mod picking;
pub mod places;
pub mod recording;
pub mod settings;
pub mod sidecar;
pub mod state;
pub mod text;
pub mod transcribe;

use vstd::prelude::*;

verus! {

/// Everything upstream of a model runs at 16 kHz mono: it is what Whisper wants,
/// and recording at that rate loses nothing transcription could have used.
pub const SAMPLE_RATE: u32 = 16_000;

/// Nanoseconds in a second.
pub const NANOS_PER_SEC: i64 = 1_000_000_000;

/// Nanoseconds that one sample at [`SAMPLE_RATE`] lasts.
pub const NANOS_PER_SAMPLE: i64 = 62_500;

} // verus!
