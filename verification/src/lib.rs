//! A covert-channel transport that tunnels byte payloads over synthetic
//! DNS query/response exchanges: a bit-level DNS message codec, a
//! steganographic embedding layer, and an authenticated-encryption envelope.

pub mod base32;
pub mod bits;
pub mod dns_packet;
pub mod laws;
pub mod payload;
pub mod loopback;
