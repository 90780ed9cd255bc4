//! A streaming SHA-1 engine.
//!
//! Message data is supplied incrementally as a sequence of bits, in chunks of
//! arbitrary size and alignment; the engine buffers partial blocks, runs the
//! SHA-1 compression function once per complete 512-bit block, and produces
//! the 160-bit digest on finalization, after which the engine is reset and
//! ready for a fresh message.

mod bits;
mod engine;
mod laws;
mod model;

pub use bits::u8_slice_to_bool;
pub use engine::Digest;
pub use engine::SHA1;
