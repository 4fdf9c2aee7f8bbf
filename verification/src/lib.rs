//! A verified DNS wire-format packet buffer: a fixed 512-byte buffer with a
//! movable cursor, bounds-checked sequential and absolute byte access,
//! big-endian integer codecs, and the DNS name codec with compression-pointer
//! chasing bounded against cycles.

pub mod wire;

pub mod packet;

pub mod laws;

pub use packet::PacketBuffer;

pub use wire::PacketError;
