//! Frame buffering, frame accumulation and port naming for a small
//! real-time audio effects host.
//!
//! The sample type is generic throughout: the buffering logic never looks
//! inside a sample, so it is verified once for every sample type.

pub mod decimal;
pub mod frame_ring;
pub mod audio_sink;
pub mod frame_accumulator;
pub mod effect_chain;
