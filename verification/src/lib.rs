//! Streaming generator of REAPER `.ReaPeaks` peak files (RPKN v1.1).
//!
//! The library consumes interleaved signed 16-bit little-endian PCM and
//! produces the bytes of a complete peak file: a global header, one header
//! per mipmap and the mipmap payloads (wave min/max pairs, spectral codes
//! and loudness values).

pub mod bucket;
pub mod format;
pub mod loudness;
pub mod options;
pub mod spectral;
pub mod streamer;
pub mod wave;

pub use format::{assemble, LayerData, MipmapHeader};
pub use options::{Feature, OptionsError, StreamerOptions};
pub use streamer::ReapeaksStreamer;
