//! Frame synchronisation and TLV decoding for a radar sensor's serial output.
//!
//! The sensor emits packets: a 40-byte header that starts with an 8-byte sync
//! pattern, followed by a payload of type-length-value records. This library
//! finds packets in a raw byte stream and turns their payloads into one record
//! per detected object.
pub mod bytes;
pub mod frame;
pub mod header;
pub mod ports;
pub mod rb;
pub mod tlv;
pub mod tlv_laws;
