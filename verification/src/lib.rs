//! Sorted term dictionary and the binary serialization protocol beneath it.

pub mod common;
pub mod termdict;
