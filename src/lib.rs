//! Segmentation of Unity3D editor and player logs into structured entries.
//!
//! `text` holds the character-level primitives, `log` the model of blocks and
//! entries, `collapse` the deduplicating order, and `unity` the public engine.
pub mod text;
pub mod log;
pub mod collapse;
pub mod unity;

pub use log::LogType;
pub use unity::{LogLine, LogRow, UnityLog};
