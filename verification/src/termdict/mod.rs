//! The term dictionary holds the terms of an index segment in sorted order
//! and maps each of them to an address in a buffer of serialized values.
//!
//! Terms are byte strings, ordered byte-wise. The index from terms to
//! addresses is a sorted table; the value of a term is read by
//! deserializing the buffer at the term's address.

pub mod index;
pub mod merger;
pub mod order;
pub mod streamer;
pub mod termdict;

pub use self::index::TermIndex;
pub use self::merger::TermMerger;
pub use self::streamer::TermBound;
pub use self::streamer::TermStreamer;
pub use self::streamer::TermStreamerBuilder;
pub use self::termdict::TermDictionary;
pub use self::termdict::TermDictionaryBuilder;
