//! Forward error correction.

use vstd::prelude::*;

pub mod ldpc;

verus! {

/// Decoding options.
#[derive(Debug)]
pub struct FecOpts {
    /// Iterations granted to belief propagation.
    pub bp_max_iter: u32,
    /// Order of the reprocessing that follows a failed run; nought for none.
    pub osd_depth: u32,
    /// Bits that are known beforehand.
    pub ap_mask: Option<Vec<bool>>,
    /// Whether the decoded word must pass its own integrity check.
    pub verify_info: bool,
}

} // verus!
