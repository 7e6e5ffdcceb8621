//! An audio scripting engine: text commands start playbacks of loaded tracks, each playback feeds
//! its own ring of samples, and the engine mixes the rings into the output stream.
//!
//! A sample is held as the bit pattern of its 32-bit float, so that it can be stored, moved and
//! handed on without rounding. The arithmetic on samples itself is a parameter of the mixer.

pub mod buffer;
pub mod command;
pub mod engine;
pub mod frames;
pub mod playback;
pub mod resample;
pub mod ring;
pub mod text;
pub mod track;
pub mod wav;

pub use crate::buffer::Buffer;
pub use crate::command::cmd_match;
pub use crate::engine::Engine;
pub use crate::track::Track;
