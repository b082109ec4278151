use vstd::prelude::*;

verus! {

/// Why a byte stream failed to decode. Any of these is fatal to the
/// connection the stream came from.
#[derive(Clone, Copy, Debug, PartialEq, Eq, Structural)]
pub enum CodecError {
    /// The stream ended before the value was complete.
    UnexpectedEnd,
    /// A text's bytes are not valid UTF-8.
    InvalidUtf8,
    /// A tagged value carried a tag outside the declared range of arms.
    BadVariantTag,
    /// An encoded map held the same key twice.
    DuplicateKey,
    /// A sequence announced more elements than the remaining bytes can hold.
    OversizedLength,
}

/// A violation of the framing rules. Fatal to the connection.
#[derive(Clone, Copy, Debug, PartialEq, Eq, Structural)]
pub enum ProtocolError {
    /// The opcode byte does not name a command the server accepts.
    UnknownOpcode,
    /// The namespace byte does not name a registered namespace.
    UnknownNamespace,
    /// The namespace does not implement the requested capability.
    UnsupportedCapability,
    /// The reply to a ping was not the single pong byte.
    MalformedPingReply,
}

/// All errors that the connection pool surfaces to its callers.
/// None of them is fatal to the pool itself.
#[derive(Clone, Copy, Debug, PartialEq, Eq, Structural)]
pub enum ConnectionPoolError {
    /// The pool is currently empty, or marked dead and waiting for the
    /// reconnect task.
    NoConnectionAvailable,
    /// Connecting to the remote server did not work.
    CannotConnect,
    /// The pool has not enough connections to scale down.
    NotEnoughConnectionsInPool,
    /// There are not enough connections available to scale down.
    NotEnoughConnectionsAvailable,
    /// There was no connection available within the acquire timeout.
    TimeoutGettingConnection,
}

/// Every error the cache system distinguishes.
#[derive(Clone, Copy, Debug, PartialEq, Eq, Structural)]
pub enum CachemError {
    /// A reply or a lookup came back empty where a value was required.
    Empty,
    /// The remote side cannot be reached.
    NotReachable,
    /// An underlying socket or buffer operation failed.
    IoError,
    /// Bytes that were expected to be a UTF-8 string were not.
    StringParseError,
    /// Malformed bytes on the wire.
    CodecError(CodecError),
    /// A violation of the framing rules.
    ProtocolError(ProtocolError),
    /// The connection pool could not satisfy a request.
    ConnectionPoolError(ConnectionPoolError),
}

} // verus!
