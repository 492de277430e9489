//! Periodic audio waveform synthesis and streaming.
//!
//! The library produces sine and triangle tones as interleaved 16-bit
//! stereo PCM, packs them into their little-endian wire format, and hands
//! the bytes to a transport through a partial-write loop that retries
//! transient timeouts and never drops or reorders a byte.

pub mod config;
pub mod pcm;
pub mod phase;
pub mod sine;
pub mod stream;
pub mod transport;
pub mod triangle;
