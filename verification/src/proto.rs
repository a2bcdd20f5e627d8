//! Plain data of the firmware protocols.

pub mod console;
pub mod debug;
