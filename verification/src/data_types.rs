//! Characters and strings as the firmware holds them, and their conversion.

pub mod chars;
pub mod decoder;
pub mod encoder;
pub mod graphemes;
pub mod round_trip;
pub mod strs;
pub mod utf8;
