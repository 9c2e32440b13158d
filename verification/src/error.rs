//! The ways in which bytes from a server can fail to be a status response.

use vstd::prelude::*;

verus! {

/// Why a run of bytes is no well-formed packet.
#[derive(Debug, Clone, Copy, PartialEq, Eq, Structural)]
pub enum CodecError {
    /// A VarInt never ended: as many groups as the type allows all asked for
    /// another, or the frame stopped in the middle of one.
    MalformedVarInt,
    /// A string says it is longer than the bytes that are left for it.
    TruncatedString,
    /// The stream ended before the envelope that its length announces was
    /// there in full.
    IncompletePacket,
    /// The packet is not the one that was asked for.
    UnexpectedPacketId,
}

} // verus!
