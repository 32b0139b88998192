use vstd::prelude::*;

verus! {

/// Every way in which reading, writing or interpreting the wire format can fail.
#[derive(Debug, Clone, Copy, PartialEq, Eq, Structural)]
pub enum McError {
    /// A read went past the end of the input.
    BufferUnderrun,
    /// A write went past the capacity of the output.
    BufferOverrun,
    /// A VarInt ran out of bytes, ran too long, or does not fit its width.
    MalformedVarInt,
    /// A string payload is not valid UTF-8.
    InvalidUtf8,
    /// No packet with this id is registered for the current state.
    UnsupportedPacket,
    /// The payload is too short for the fields of the packet.
    UnknownPacket,
    /// Bytes are left over after every field of the packet was read.
    TrailingBytes,
    /// A handshake asked for a state that does not exist.
    InvalidStateTransition,
    /// The stream ended in the middle of a frame.
    TruncatedFrame,
}

} // verus!
