//! Text-based consoles.

pub mod output;
