//! The receiver on a small machine: audio in chunks, work in pieces.

pub mod board;
pub mod decoded_list;
pub mod fixed;
pub mod laws;
pub mod log_sink;
pub mod pipeline;
pub mod qso;
pub mod stage1_inc;
pub mod ui;
