//! LEB128 (little-endian base 128) encoding of unsigned and two's-complement
//! signed 128-bit integers.
//!
//! Each encoded byte carries seven payload bits in its low bits and a
//! continuation flag in bit 7; the least significant group comes first.
//! Encoders always produce the minimal encoding. Decoders accept any
//! terminated sequence; bits beyond the 128-bit width are dropped (the
//! result is the encoded value modulo 2^128), and a sequence that runs off
//! the end of the input is reported as `DecodeError::Truncated`.
pub mod frame;
pub mod laws;
pub mod model;
pub mod signed;
pub mod sink;
pub mod unsigned;
