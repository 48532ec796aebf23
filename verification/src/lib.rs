//! A streaming LZ77-family codec: input bytes are rewritten as a flat
//! sequence of 2-byte tokens (literals and back-references into a bounded
//! circular history window), and that transform is reversed exactly.
//!
//! The wire format carries no header, length prefix, checksum or trailer;
//! end of stream is signalled purely by exhaustion of the input. Any bit
//! corruption of a reference's offset or length therefore silently produces
//! wrong output rather than a detected error: that is an inherent property
//! of the format, not a defect of this implementation.

pub mod engine;
pub mod finder;
pub mod laws;
pub mod token;
pub mod window;
