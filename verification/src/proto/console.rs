//! Console protocols.

pub mod text;
