//! JT9: which bins, lags and symbols the demodulator reads.

pub mod decode;
pub mod laws;
pub mod softsym;
