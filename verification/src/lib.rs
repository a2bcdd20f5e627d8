//! Text interchange with UEFI firmware.
//!
//! The firmware understands fixed-width, null-terminated strings in Latin-1
//! or UCS-2 with carriage return and line feed at the end of a line. This
//! library holds such strings as validated views, converts Rust strings to
//! them and back through buffers of fixed size that the caller supplies, and
//! models the status codes and the plain data of the console and debug
//! protocols. It neither allocates nor talks to the firmware.

pub mod data_types;
pub mod proto;
pub mod status;
