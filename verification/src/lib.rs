//! Recovers nRF24-style packets from a demodulated bitstream: MSB-first
//! field extraction, a bit-serial 16-bit checksum, and a preamble-driven
//! frame scanner that validates every candidate before emitting it.

pub mod bits;
pub mod crc;
pub mod frame;
