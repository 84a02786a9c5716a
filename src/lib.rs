//! Handshake protocol of a tunnel that disguises its setup traffic as HTTP:
//! payload codec, message framing under an AEAD cipher, fake headers and the
//! client and server handshake state machines.
pub mod key;
pub mod frame;
pub mod handshake;
pub mod header;
pub mod payload;
