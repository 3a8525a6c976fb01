//! FT8: fifteen second slots, eight tones, three Costas arrays.

pub mod coarse;
pub mod decode_block;
pub mod laws;
pub mod llr;
pub mod params;
pub mod refine_fine;
pub mod search;
pub mod search_laws;
pub mod signal_laws;
pub mod spectrogram;
pub mod staircase;
pub mod symbols;
