//! The error taxonomy shared by the codec, the resolver and the server
//! dispatch.

use vstd::prelude::*;

verus! {

/// Everything that can go wrong while handling one DNS message.
///
/// * `BufferBounds` — a read, write or patch would touch a position at or
///   past the 512-byte packet capacity.
/// * `LabelTooLong` — a name label longer than 63 bytes was handed to the
///   encoder.
/// * `MalformedMessage` — a structurally invalid decode, in particular a
///   compression-pointer chain longer than the decoder's jump budget.
/// * `TransportFailure` — the datagram transport failed; fatal to one
///   resolution attempt, recoverable for the server loop.
#[derive(Clone, Copy, Debug, PartialEq, Eq, Structural)]
pub enum DnsError {
    BufferBounds,
    LabelTooLong,
    MalformedMessage,
    TransportFailure,
}

} // verus!
