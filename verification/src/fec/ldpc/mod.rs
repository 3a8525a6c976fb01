//! Low-density parity-check codes.

pub mod bp;
pub mod code;
pub mod crc;
pub mod laws;
