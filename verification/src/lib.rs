//! Bit-sliced column indexes ("bit groups") and range scans over them.
//!
//! A column of `u32` values is cut into segments of 32 values. Each segment
//! is transposed so that one word holds one bit position of all 32 values;
//! those words are gathered into bit groups. A range predicate
//! `c1 < v < c2` is then evaluated on all 32 values of a segment at once
//! with a handful of word-wide boolean operations per bit.
use vstd::prelude::*;

pub mod bits;
pub mod bitgroup;
pub mod bitvec_ops;
pub mod codec;
pub mod column_store;
pub mod compare;
pub mod index_builder;
pub mod index_builder2;
pub mod lanes;
pub mod laws;
pub mod naivescan;
pub mod scanner;
pub mod simd_scanner;
pub mod simd_scanner2;
pub mod simd_scanner_256;
