//! Bitwise Hamming distance between hexadecimal strings and byte arrays,
//! with single-record, multi-record and catalog scans.

pub mod algo;
pub mod popcount;
pub mod distance;
pub mod kernels;
pub mod hex;
pub mod bits;
pub mod records;
pub mod scan;
pub mod block;
pub mod api;
pub mod par;
pub mod batch;
pub mod mih;
pub mod catalog;
pub mod legacy;
pub mod laws;
pub mod checks;
pub mod packed;
