//! Decoders and packet framing for weak-signal MFSK radio modes, with every
//! decision of the receive and transmit paths proved against its contract.

use vstd::prelude::*;

pub mod bits;
pub mod dsp;
pub mod dotprod;
pub mod embedded;
pub mod fec;
pub mod fft;
pub mod ft8;
pub mod jt9;
pub mod scalar;
pub mod select;
pub mod uvpacket;
pub mod wspr;

verus! {

} // verus!
