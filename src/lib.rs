//! Keyframe / partial-frame decisions for a stream of pixel buffers.
//!
//! A [`FrameContext`] keeps the last stored frame and decides, for each new
//! frame, whether to emit it whole or only the tiles of a fixed 16 × 16 block
//! grid that changed since the stored frame.

pub mod engine;
pub mod grid;
pub mod laws;
pub mod raster;

pub use raster::Raster;
pub use engine::{Frame, FrameContext, FrameError, PartialFrame};
