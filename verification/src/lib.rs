//! Gapless multi-track audio: planar sample tracks, chapter-exact resample
//! planning and distribution, and the playback scheduler that feeds an
//! interleaved output buffer.
//!
//! Samples are an arbitrary `Copy` type: the library moves them and never
//! computes with them.

pub mod load;
pub mod plan;
pub mod player;
pub mod resample;
pub mod track;
