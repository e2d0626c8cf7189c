//! A broadcast relay for fixed-size frames: one producer byte stream is cut
//! into frames, and every frame is fanned out to the queues of all registered
//! consumers.

mod buffers;
pub mod chunk;
pub mod framer;
pub mod registry;
pub mod peer;

pub use buffers::{buf_contents, frame_contents};
