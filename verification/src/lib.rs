//! Streaming, constant-memory decoder for a bit-level run-length container
//! format: a fixed 8-byte magic, then a prefix-coded command stream that
//! alternates zero runs and literal bit spans, each closed by a marker bit,
//! and ends with a final zero run that pads the output to a byte boundary.

pub mod bits;
pub mod decoder;
pub mod encoder;
pub mod format;
pub mod ral;
pub mod reader;
pub mod ring;
pub mod writer;
