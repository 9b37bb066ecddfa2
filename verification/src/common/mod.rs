//! The binary serialization protocol: fixed-width integers, variable-length
//! integers, strings, sequences and pairs.

pub mod endian;
pub mod serialize;
pub mod vint;

pub use self::serialize::BinarySerializable;
pub use self::serialize::DecodeError;
pub use self::vint::VInt;
