//! Signal processing shared by the modes.

pub mod subtract;
