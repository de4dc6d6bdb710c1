//! Connection lifecycle states, disconnect reasons and handshake requests.

use vstd::prelude::*;

verus! {

/// Which side of the handshake this endpoint plays.
#[derive(Copy, Clone, Debug, PartialEq, Eq, Structural)]
pub enum Role {
    Client,
    Server,
}

/// The lifecycle of a connection, with per-state data carried inline.
#[derive(Copy, Clone, Debug, PartialEq, Eq, Structural)]
pub enum ConnectionState {
    /// Just created; nothing sent yet.
    Created,
    /// Client side: request sent, waiting for an answer. Carries the number
    /// of attempts so far and the time of the last one.
    Connecting(u32, u64),
    /// Request accepted, credentials being checked. Carries the time the
    /// phase began.
    Authenticating(u64),
    /// Data may flow.
    Connected,
    /// A disconnect notification is owed to the peer.
    Disconnecting(DisconnectReason),
    /// Closed; the slot lingers until the carried time so late packets die
    /// quietly.
    Disconnected(u64),
}

/// Why a connection ended.
#[derive(Copy, Clone, Debug, PartialEq, Eq, Structural)]
pub enum DisconnectReason {
    ConnectionTokenExpired,
    ConnectionTokenInvalid,
    ConnectionRequestTimeout,
    ConnectionAuthenticationTimeout,
    EncryptionInvalid,
    ProtocolVersionInvalid,
    ConnectionDenied,
    ConnectionAttemptsExhausted,
    /// Nothing heard from the peer within the idle timeout.
    ConnectionTimeout,
    PeerConnectionTimeout,
    Closed,
    PeerClosed,
    SendBufferIsFull,
    RecvBufferIsFull,
    ExcessivePacketLoss,
    Unknown,
}

/// A handshake request exchanged between endpoints.
#[derive(Copy, Clone, Debug, PartialEq, Eq, Structural)]
pub enum Request {
    /// Ask to open a connection.
    Connect,
    /// Tear the connection down, carrying the reason.
    Disconnect(DisconnectReason),
    /// Server grants a pending request.
    Accept,
    /// Server refuses a pending request.
    Deny,
}

} // verus!
