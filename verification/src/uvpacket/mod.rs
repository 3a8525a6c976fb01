//! `uvpacket`: a packet protocol for narrow-band FM voice channels.
//!
//! A frame is a four byte header and a payload, cut into one to 32 blocks of
//! twelve bytes. Each block is encoded by a (240, 101) parity-check code and
//! punctured by the mode; the blocks of a frame are interleaved, and pairs of
//! bits become tones.

pub mod framing;
pub mod interleaver;
pub mod laws;
pub mod protocol;
pub mod puncture;
pub mod receive;
pub mod rx;
pub mod sync;
pub mod sync_pattern;
pub mod tx;
