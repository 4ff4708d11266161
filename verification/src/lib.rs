//! A codec for DNS messages in their wire format: a fixed 512-byte buffer,
//! the bit-packed header, compressed names, questions and resource records.
//!
//! Every reader is specified by a function from the bytes of a buffer and a
//! position to the value read and the position behind it (`u16_at`,
//! `name_at`, `header_at`, `question_at`, `record_at`, `packet_at`). Every
//! writer is specified by the bytes that it puts out (`wire`) and by
//! `BytePacketBuffer::wrote`, which says where in the buffer they go and
//! how many of them when the buffer ends first.

pub mod error;
pub mod buffer;
pub mod text;
pub mod name;
pub mod result;
pub mod query;
pub mod header;
pub mod question;
pub mod record;
pub mod packet;
