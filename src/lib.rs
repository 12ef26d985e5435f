//! Content-defined chunking with the asymmetric-extremum rule.
//!
//! A [`Chunker`] walks a borrowed byte buffer and hands out contiguous,
//! non-overlapping chunks whose boundaries depend on the local content and on
//! a 64-bit salt.

pub mod chunker;
pub mod laws;
pub mod scan;
pub mod window;

pub use chunker::{Chunker, ChunkerError, ChunkerView};
