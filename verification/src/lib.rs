//! Utilities for inspecting binary data: bit slicing, base conversion,
//! printable-string extraction, plain hexadecimal and the annotated hex dump.

pub mod bits;
pub mod convert;
pub mod hex;
pub mod hexdump;
pub mod strings;
