//! The plain scan, value by value, that the bit-group scans are measured
//! against.
pub mod naive_scanner;
