//! WSPR: interleaving, alignment search and the bookkeeping of a scan.

pub mod decode;
pub mod interleave;
pub mod laws;
pub mod scan;
