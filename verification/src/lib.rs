//! Word-level timestamps for synthesised speech.

pub mod alignment;
