//! Bit-level encoding primitives for a lossless audio encoder: a
//! generalized bit-sequence CRC engine, a self-delimiting
//! variable-length integer code, a Rice residual code, and a PCM
//! wave-container sample source.

pub mod bits;
pub mod crc;
pub mod flac;
pub mod rice;
pub mod utf8;
pub mod wav;
