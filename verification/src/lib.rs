//! Per-type statistics for newline-delimited logs of JSON records.
//!
//! Each line of an input file is a JSON object carrying a string-valued
//! `type` field. The library groups the lines by that label and computes,
//! for every label, how many lines carry it and how many bytes those lines
//! occupy (line terminators excluded). A completed table is reported as one
//! text line per label, in strictly ascending label order.

pub mod decode;
pub mod laws;
pub mod order;
pub mod process;
pub mod report;
pub mod stats;
pub mod sums;
