//! A DNS message codec and resolution engine.
//!
//! The crate decodes untrusted DNS wire bytes into a structured message,
//! encodes structured messages back into wire bytes (resolving label
//! compression on the read path), and decides each step of an iterative
//! delegation walk and of the per-query server dispatch.  All byte-level
//! work runs over a fixed 512-byte packet buffer with bounds-checked
//! access.

pub mod byte_packet_buffer;
pub mod dns_error;
pub mod dns_header;
pub mod dns_packet;
pub mod dns_question;
pub mod dns_record;
pub mod query_type;
pub mod resolver;
pub mod result_code;
pub mod server;
