use vstd::prelude::*;

verus! {

/// Every way in which handling one connection can fail. Protocol and transport
/// errors close that connection only; the listener keeps serving others.
#[derive(Debug, Clone, Copy, PartialEq, Eq, Structural)]
pub enum ProtocolError {
    /// A varint that runs past five bytes, or whose bytes end mid-sequence.
    MalformedVarint,
    /// The stream closed, or the packet body ended, before the declared bytes.
    TruncatedFrame,
    /// Bytes are left over after every field of a packet was read.
    TrailingBytes,
    /// A handshake asked for a next state other than status (1) or login (2).
    InvalidState,
    /// A packet that the connection's current state does not allow.
    WrongState,
    /// A packet id that this proxy does not handle.
    UnsupportedPacket,
    /// A string field whose bytes are not valid UTF-8.
    MalformedString,
    /// The peer closed the stream between frames.
    ConnectionClosed,
    /// Reading from or writing to a socket failed.
    IoFailure,
    /// The backend could not be reached.
    BackendUnavailable,
}

} // verus!
